use bugcheck::entities::Direction;
use bugcheck::entities::Entity;
use bugcheck::entities::EntityType;
use bugcheck::entities::Filter;
use bugcheck::entities::Position;

#[test]
fn position_new_keeps_coordinates() {
    let p = Position::new(3, -4);
    assert_eq!(p.x, 3);
    assert_eq!(p.y, -4);
}

#[test]
fn neighbours_are_north_east_south_west() {
    let p = Position::new(3, 4);
    let ns = p.neighbours();
    assert_eq!(
        ns,
        vec![
            Position::new(3, 5),
            Position::new(4, 4),
            Position::new(3, 3),
            Position::new(2, 4),
        ]
    );
}

#[test]
fn three_by_three_is_the_centred_block() {
    let p = Position::new(3, 4);
    let cells = p.three_by_three();
    assert_eq!(
        cells,
        vec![
            Position::new(2, 3),
            Position::new(2, 4),
            Position::new(2, 5),
            Position::new(3, 3),
            Position::new(3, 4),
            Position::new(3, 5),
            Position::new(4, 3),
            Position::new(4, 4),
            Position::new(4, 5),
        ]
    );
}

#[test]
fn shift_one_moves_one_cell() {
    let p = Position::new(0, 0);
    assert_eq!(p.shift_one(Direction::North), Position::new(0, 1));
    assert_eq!(p.shift_one(Direction::East), Position::new(1, 0));
    assert_eq!(p.shift_one(Direction::South), Position::new(0, -1));
    assert_eq!(p.shift_one(Direction::West), Position::new(-1, 0));
}

#[test]
fn clockwise_turns() {
    assert_eq!(Direction::North.cw(), Direction::East);
    assert_eq!(Direction::East.cw(), Direction::South);
    assert_eq!(Direction::South.cw(), Direction::West);
    assert_eq!(Direction::West.cw(), Direction::North);
}

#[test]
fn counter_clockwise_turns() {
    assert_eq!(Direction::North.ccw(), Direction::West);
    assert_eq!(Direction::West.ccw(), Direction::South);
    assert_eq!(Direction::South.ccw(), Direction::East);
    assert_eq!(Direction::East.ccw(), Direction::North);
}

fn placed(n: i32, x: i64, y: i64, ty: EntityType) -> Entity {
    Entity { position: Position::new(x, y), direction: Direction::North, entity_number: n, ty }
}

#[test]
fn only_walls_block() {
    assert!(EntityType::StoneWall {}.is_blocking());
    assert!(!EntityType::TransportBelt.is_blocking());
    assert!(!EntityType::FilterInserter { filters: None }.is_blocking());
    assert!(!EntityType::AssemblingMachine { recipe: String::from("iron-gear-wheel") }
        .is_blocking());
    assert!(!EntityType::ElectricFurnace {}.is_blocking());
    assert!(!EntityType::UndergroundBelt { belt_type: String::from("input") }.is_blocking());
    assert!(!EntityType::ChemicalPlant { recipe: String::from("sulfur") }.is_blocking());
}

#[test]
fn beltlike_variants() {
    assert!(EntityType::TransportBelt.is_beltlike());
    assert!(EntityType::UndergroundBelt { belt_type: String::from("output") }.is_beltlike());
    assert!(EntityType::Splitter {
        filter: String::new(),
        input_priority: String::new(),
        output_priority: String::new(),
    }
    .is_beltlike());
    assert!(!EntityType::StoneWall {}.is_beltlike());
    assert!(!EntityType::ElectricFurnace {}.is_beltlike());
}

#[test]
fn splitter_footprint_is_unsettled() {
    assert!(!EntityType::Splitter {
        filter: String::new(),
        input_priority: String::new(),
        output_priority: String::new(),
    }
    .has_footprint());
    assert!(EntityType::TransportBelt.has_footprint());
    assert!(EntityType::StoneWall {}.has_footprint());
}

#[test]
fn single_cell_footprints() {
    let belt = placed(1, 7, -2, EntityType::TransportBelt);
    assert_eq!(belt.get_positions(), vec![Position::new(7, -2)]);
    let wall = placed(2, 0, 0, EntityType::StoneWall {});
    assert_eq!(wall.get_positions(), vec![Position::new(0, 0)]);
    let inserter = placed(
        3,
        1,
        1,
        EntityType::FilterInserter {
            filters: Some(vec![Filter::new(1, String::from("iron-plate"))]),
        },
    );
    assert_eq!(inserter.get_positions(), vec![Position::new(1, 1)]);
}

#[test]
fn block_footprints_cover_nine_cells() {
    let machine = placed(4, 0, 0, EntityType::AssemblingMachine { recipe: String::from("pipe") });
    let cells = machine.get_positions();
    assert_eq!(cells.len(), 9);
    assert_eq!(cells, Position::new(0, 0).three_by_three());
    let furnace = placed(5, 2, 2, EntityType::ElectricFurnace {});
    assert_eq!(furnace.get_positions(), Position::new(2, 2).three_by_three());
    let plant = placed(6, -3, 0, EntityType::ChemicalPlant { recipe: String::from("sulfur") });
    assert_eq!(plant.get_positions(), Position::new(-3, 0).three_by_three());
}

#[test]
fn ports_coincide_with_footprint() {
    let furnace = placed(7, 1, 1, EntityType::ElectricFurnace {});
    assert_eq!(furnace.output_positions(), furnace.get_positions());
    assert_eq!(furnace.input_positions(), furnace.get_positions());
}
