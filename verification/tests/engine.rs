use bugcheck::bug::check_for_bugs;
use bugcheck::bug::AnalysisError;
use bugcheck::entities::Blueprint;
use bugcheck::entities::Direction;
use bugcheck::entities::Entity;
use bugcheck::entities::EntityType;
use bugcheck::entities::Position;

fn placed(n: i32, x: i64, y: i64, ty: EntityType) -> Entity {
    Entity { position: Position::new(x, y), direction: Direction::North, entity_number: n, ty }
}

fn belt(n: i32, x: i64, y: i64) -> Entity {
    placed(n, x, y, EntityType::TransportBelt)
}

fn wall(n: i32, x: i64, y: i64) -> Entity {
    placed(n, x, y, EntityType::StoneWall {})
}

/// The entity numbers reported, in ascending order.
fn reported(bp: Blueprint) -> Vec<i32> {
    let mut nums: Vec<i32> = check_for_bugs(bp)
        .expect("analysis should succeed")
        .iter()
        .map(|e| e.entity_number)
        .collect();
    nums.sort();
    nums
}

/// A closed ring of walls on the border of the square spanning `lo..=hi`
/// on both axes, numbered from `start`.
fn wall_ring(start: i32, lo: i64, hi: i64) -> Vec<Entity> {
    let mut ring = Vec::new();
    let mut n = start;
    for x in lo..=hi {
        for y in lo..=hi {
            if x == lo || x == hi || y == lo || y == hi {
                ring.push(wall(n, x, y));
                n += 1;
            }
        }
    }
    ring
}

#[test]
fn empty_layout_reports_nothing() {
    let r = check_for_bugs(Blueprint::new(Vec::new()));
    assert_eq!(r.expect("empty layout is not an error").len(), 0);
}

#[test]
fn enclosed_belt_is_safe() {
    let mut entities = wall_ring(100, 0, 2);
    entities.push(belt(1, 1, 1));
    assert_eq!(reported(Blueprint::new(entities)), Vec::<i32>::new());
}

#[test]
fn walls_alone_are_never_reported() {
    let entities = wall_ring(100, 0, 2);
    assert_eq!(reported(Blueprint::new(entities)), Vec::<i32>::new());
}

#[test]
fn perimeter_breach_exposes_the_centre() {
    // The same ring, but the wall on one edge replaced by a belt.
    let mut entities: Vec<Entity> = wall_ring(100, 0, 2)
        .into_iter()
        .filter(|e| e.position != Position::new(0, 1))
        .collect();
    entities.push(belt(2, 0, 1));
    entities.push(belt(1, 1, 1));
    assert_eq!(reported(Blueprint::new(entities)), vec![1, 2]);
}

#[test]
fn single_missing_wall_exposes_every_enclosed_entity() {
    // A 5x5 ring with a hole where one wall was removed.
    let mut entities: Vec<Entity> = wall_ring(100, 0, 4)
        .into_iter()
        .filter(|e| e.position != Position::new(0, 2))
        .collect();
    entities.push(belt(1, 2, 2));
    entities.push(placed(2, 1, 2, EntityType::FilterInserter { filters: None }));
    assert_eq!(reported(Blueprint::new(entities)), vec![1, 2]);
}

#[test]
fn open_layout_reports_every_entity() {
    let entities = vec![
        belt(1, 0, 0),
        placed(2, 5, 5, EntityType::AssemblingMachine { recipe: String::from("pipe") }),
        placed(3, 10, 0, EntityType::FilterInserter { filters: None }),
        placed(4, -3, 2, EntityType::UndergroundBelt { belt_type: String::from("input") }),
    ];
    assert_eq!(reported(Blueprint::new(entities)), vec![1, 2, 3, 4]);
}

#[test]
fn analysis_is_idempotent() {
    let entities = vec![
        belt(1, 0, 0),
        wall(2, 1, 0),
        placed(3, 4, 4, EntityType::ElectricFurnace {}),
    ];
    let first = reported(Blueprint::new(entities.clone()));
    let second = reported(Blueprint::new(entities));
    assert_eq!(first, second);
}

#[test]
fn block_entity_is_reported_once() {
    // A 3x3 machine is touched from many sides but appears exactly once.
    let entities = vec![placed(
        7,
        0,
        0,
        EntityType::AssemblingMachine { recipe: String::from("iron-gear-wheel") },
    )];
    let r = check_for_bugs(Blueprint::new(entities)).expect("analysis should succeed");
    assert_eq!(r.len(), 1);
    assert_eq!(r[0].entity_number, 7);
}

#[test]
fn enclosed_machine_is_safe_and_breach_exposes_it_once() {
    // A 5x5 ring around a 3x3 furnace.
    let mut entities = wall_ring(100, 0, 4);
    entities.push(placed(9, 2, 2, EntityType::ElectricFurnace {}));
    assert_eq!(reported(Blueprint::new(entities.clone())), Vec::<i32>::new());
    let mut breached: Vec<Entity> = entities
        .into_iter()
        .filter(|e| e.position != Position::new(4, 2))
        .collect();
    breached.push(belt(10, 4, 2));
    assert_eq!(reported(Blueprint::new(breached)), vec![9, 10]);
}

#[test]
fn splitter_aborts_the_analysis() {
    let entities = vec![
        belt(1, 0, 0),
        placed(
            2,
            3,
            0,
            EntityType::Splitter {
                filter: String::new(),
                input_priority: String::new(),
                output_priority: String::new(),
            },
        ),
    ];
    let r = check_for_bugs(Blueprint::new(entities));
    assert_eq!(r, Err(AnalysisError::UnsupportedVariant));
}

#[test]
fn entity_at_answers_point_queries() {
    let machine = placed(1, 0, 0, EntityType::AssemblingMachine { recipe: String::from("pipe") });
    let lone_belt = belt(2, 5, 0);
    let bp = Blueprint::new(vec![machine, lone_belt]);
    assert_eq!(bp.entity_at(&Position::new(1, 1)).expect("covered").entity_number, 1);
    assert_eq!(bp.entity_at(&Position::new(-1, -1)).expect("covered").entity_number, 1);
    assert_eq!(bp.entity_at(&Position::new(5, 0)).expect("covered").entity_number, 2);
    assert!(bp.entity_at(&Position::new(3, 3)).is_none());
}

#[test]
fn entity_at_returns_the_first_match() {
    // Two entities over one cell: the scan answers with the first.
    let bp = Blueprint::new(vec![belt(1, 0, 0), placed(2, 0, 0, EntityType::ElectricFurnace {})]);
    assert_eq!(bp.entity_at(&Position::new(0, 0)).expect("covered").entity_number, 1);
}
