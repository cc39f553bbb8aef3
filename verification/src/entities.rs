use vstd::prelude::*;

verus! {

/// Largest coordinate magnitude the analysis accepts. Keeping every entity
/// inside this range lets every footprint, border and neighbour computation
/// stay far away from the ends of `i64`.
pub const COORD_LIMIT: i64 = 1_000_000_000;

/// A grid coordinate. Every coordinate handled by the analysis is an exact
/// integer; a cell of the layout is identified with the `Position` of its
/// centre.
#[derive(Clone, Copy, Debug, PartialEq, Eq, Structural, Hash)]
pub struct Position {
    pub x: i64,
    pub y: i64,
}

/// Two cells are adjacent when they differ by exactly one unit along exactly
/// one axis (no diagonals).
pub open spec fn adjacent(a: Position, b: Position) -> bool {
    ||| (a.x == b.x && (b.y == a.y + 1 || b.y == a.y - 1))
    ||| (a.y == b.y && (b.x == a.x + 1 || b.x == a.x - 1))
}

/// The 3x3 block of cells centred on `p`, in the order the catalog hands
/// them out.
pub open spec fn block_cells(p: Position) -> Seq<Position> {
    seq![
        Position { x: (p.x - 1) as i64, y: (p.y - 1) as i64 },
        Position { x: (p.x - 1) as i64, y: p.y },
        Position { x: (p.x - 1) as i64, y: (p.y + 1) as i64 },
        Position { x: p.x, y: (p.y - 1) as i64 },
        Position { x: p.x, y: p.y },
        Position { x: p.x, y: (p.y + 1) as i64 },
        Position { x: (p.x + 1) as i64, y: (p.y - 1) as i64 },
        Position { x: (p.x + 1) as i64, y: p.y },
        Position { x: (p.x + 1) as i64, y: (p.y + 1) as i64 },
    ]
}

impl Position {
    /// The coordinate range on which all spatial operations are exact.
    pub open spec fn bounded(self) -> bool {
        -COORD_LIMIT <= self.x <= COORD_LIMIT && -COORD_LIMIT <= self.y <= COORD_LIMIT
    }

    pub fn new(x: i64, y: i64) -> (r: Self)
        ensures
            r == (Position { x, y }),
    {
        Position { x, y }
    }

    /// The four axis-aligned adjacent cells, in the order North, East,
    /// South, West.
    pub fn neighbours(&self) -> (r: Vec<Position>)
        requires
            i64::MIN < self.x < i64::MAX,
            i64::MIN < self.y < i64::MAX,
        ensures
            r@.len() == 4,
            forall|k: int| 0 <= k < 4 ==> adjacent(*self, #[trigger] r@[k]),
            forall|q: Position| adjacent(*self, q) ==> r@.contains(q),
    {
        let r = vec![
            self.shift_one(Direction::North),
            self.shift_one(Direction::East),
            self.shift_one(Direction::South),
            self.shift_one(Direction::West),
        ];
        proof {
            assert forall|q: Position| adjacent(*self, q) implies r@.contains(q) by {
                if q.x == self.x && q.y == self.y + 1 {
                    assert(r@[0] == q);
                } else if q.x == self.x + 1 && q.y == self.y {
                    assert(r@[1] == q);
                } else if q.x == self.x && q.y == self.y - 1 {
                    assert(r@[2] == q);
                } else {
                    assert(r@[3] == q);
                }
            }
        }
        r
    }

    /// The 3x3 block of cells centred on this position, the footprint shared
    /// by all large machines.
    pub fn three_by_three(&self) -> (r: Vec<Position>)
        requires
            i64::MIN < self.x < i64::MAX,
            i64::MIN < self.y < i64::MAX,
        ensures
            r@ == block_cells(*self),
    {
        let r = vec![
            Position { x: self.x - 1, y: self.y - 1 },
            Position { x: self.x - 1, y: self.y },
            Position { x: self.x - 1, y: self.y + 1 },
            Position { x: self.x, y: self.y - 1 },
            Position { x: self.x, y: self.y },
            Position { x: self.x, y: self.y + 1 },
            Position { x: self.x + 1, y: self.y - 1 },
            Position { x: self.x + 1, y: self.y },
            Position { x: self.x + 1, y: self.y + 1 },
        ];
        proof {
            assert(r@ =~= block_cells(*self));
        }
        r
    }

    /// Move one cell in the given compass direction.
    pub fn shift_one(self, d: Direction) -> (r: Position)
        requires
            i64::MIN < self.x < i64::MAX,
            i64::MIN < self.y < i64::MAX,
        ensures
            r.x == self.x + d.offset().x,
            r.y == self.y + d.offset().y,
    {
        let o = d.as_position();
        Position { x: self.x + o.x, y: self.y + o.y }
    }
}

/// A compass orientation. The reachability analysis itself never consults
/// it; it is carried so an entity keeps the orientation it was placed with.
#[derive(Clone, Copy, Debug, PartialEq, Eq, Structural, Hash)]
pub enum Direction {
    North,
    East,
    South,
    West,
}

impl Direction {
    /// The unit offset this direction stands for.
    pub open spec fn offset(self) -> Position {
        match self {
            Direction::North => Position { x: 0, y: 1 },
            Direction::East => Position { x: 1, y: 0 },
            Direction::South => Position { x: 0, y: -1i64 },
            Direction::West => Position { x: -1i64, y: 0 },
        }
    }

    fn as_position(&self) -> (r: Position)
        ensures
            r == self.offset(),
    {
        match self {
            Direction::North => Position { x: 0, y: 1 },
            Direction::East => Position { x: 1, y: 0 },
            Direction::South => Position { x: 0, y: -1i64 },
            Direction::West => Position { x: -1i64, y: 0 },
        }
    }

    /// Quarter turn clockwise.
    pub fn cw(self) -> (r: Direction)
        ensures
            r == (match self {
                Direction::North => Direction::East,
                Direction::East => Direction::South,
                Direction::South => Direction::West,
                Direction::West => Direction::North,
            }),
    {
        match self {
            Direction::North => Direction::East,
            Direction::East => Direction::South,
            Direction::South => Direction::West,
            Direction::West => Direction::North,
        }
    }

    /// Quarter turn counter-clockwise.
    pub fn ccw(self) -> (r: Direction)
        ensures
            r == (match self {
                Direction::North => Direction::West,
                Direction::East => Direction::North,
                Direction::South => Direction::East,
                Direction::West => Direction::South,
            }),
    {
        match self {
            Direction::North => Direction::West,
            Direction::East => Direction::North,
            Direction::South => Direction::East,
            Direction::West => Direction::South,
        }
    }
}

/// An item filter as carried by a filter inserter.
#[derive(Clone, Debug, PartialEq)]
pub struct Filter {
    index: i32,
    name: String,
}

impl Filter {
    pub fn new(index: i32, name: String) -> Filter {
        Filter { index, name }
    }
}

/// The catalog of entity variants, each carrying only its kind-specific
/// payload.
#[derive(Clone, Debug, PartialEq)]
pub enum EntityType {
    TransportBelt,
    AssemblingMachine { recipe: String },
    FilterInserter { filters: Option<Vec<Filter>> },
    ElectricFurnace {},
    UndergroundBelt { belt_type: String },
    ChemicalPlant { recipe: String },
    Splitter { filter: String, input_priority: String, output_priority: String },
    StoneWall {},
}

impl EntityType {
    /// Walls are the only variant that absorbs the spreading contaminant.
    /// Every other variant, including any not-yet-classified one, is
    /// deliberately treated as breachable.
    pub open spec fn spec_is_blocking(self) -> bool {
        self is StoneWall
    }

    /// The variants whose footprint rule is known. The splitter's multi-cell
    /// footprint is not settled, so asking for it must fail fast rather than
    /// approximate.
    pub open spec fn spec_has_footprint(self) -> bool {
        !(self is Splitter)
    }

    /// True exactly for the variants that occupy a full 3x3 block.
    pub open spec fn spec_is_block(self) -> bool {
        self is AssemblingMachine || self is ElectricFurnace || self is ChemicalPlant
    }

    pub fn is_blocking(&self) -> (r: bool)
        ensures
            r == self.spec_is_blocking(),
    {
        match self {
            EntityType::StoneWall {} => true,
            _ => false,
        }
    }

    pub fn has_footprint(&self) -> (r: bool)
        ensures
            r == self.spec_has_footprint(),
    {
        match self {
            EntityType::Splitter { .. } => false,
            _ => true,
        }
    }

    pub fn is_beltlike(&self) -> (r: bool)
        ensures
            r == (self is TransportBelt || self is UndergroundBelt || self is Splitter),
    {
        match self {
            EntityType::TransportBelt => true,
            EntityType::UndergroundBelt { .. } => true,
            EntityType::Splitter { .. } => true,
            _ => false,
        }
    }
}

/// A placed object: where it stands, how it is turned, its stable identity
/// within the layout, and which variant it is.
#[derive(Clone, Debug, PartialEq)]
pub struct Entity {
    pub position: Position,
    pub direction: Direction,
    pub entity_number: i32,
    pub ty: EntityType,
}

impl Entity {
    /// The set of cells this entity occupies, as a sequence: a single cell
    /// for small variants, the full 3x3 block for large machines, and
    /// nothing for the splitter, whose footprint rule is not settled.
    pub open spec fn spec_positions(self) -> Seq<Position> {
        if self.ty.spec_is_block() {
            block_cells(self.position)
        } else if self.ty.spec_has_footprint() {
            seq![self.position]
        } else {
            Seq::empty()
        }
    }

    /// Dispatches on the variant to compute the footprint. The splitter has
    /// no settled footprint rule, so it is excluded up front.
    pub fn get_positions(&self) -> (r: Vec<Position>)
        requires
            self.ty.spec_has_footprint(),
            i64::MIN < self.position.x < i64::MAX,
            i64::MIN < self.position.y < i64::MAX,
        ensures
            r@ == self.spec_positions(),
    {
        match &self.ty {
            EntityType::TransportBelt => vec![self.position],
            EntityType::AssemblingMachine { recipe: _ } => self.position.three_by_three(),
            EntityType::FilterInserter { filters: _ } => vec![self.position],
            EntityType::ElectricFurnace {} => self.position.three_by_three(),
            EntityType::UndergroundBelt { belt_type: _ } => vec![self.position],
            EntityType::ChemicalPlant { recipe: _ } => self.position.three_by_three(),
            EntityType::Splitter { filter: _, input_priority: _, output_priority: _ } => {
                // unreachable: excluded by the precondition
                vec![]
            },
            EntityType::StoneWall {} => vec![self.position],
        }
    }

    /// The cells this entity feeds items into. Port geometry is modelled for
    /// the variants whose outputs coincide with their footprint; the filter
    /// inserter's directional ports are not settled and are excluded.
    pub fn output_positions(&self) -> (r: Vec<Position>)
        requires
            self.ty.spec_has_footprint(),
            !(self.ty is FilterInserter),
            i64::MIN < self.position.x < i64::MAX,
            i64::MIN < self.position.y < i64::MAX,
        ensures
            r@ == self.spec_positions(),
    {
        self.get_positions()
    }

    /// The cells this entity takes items from; same modelling limits as
    /// `output_positions`.
    pub fn input_positions(&self) -> (r: Vec<Position>)
        requires
            self.ty.spec_has_footprint(),
            !(self.ty is FilterInserter),
            i64::MIN < self.position.x < i64::MAX,
            i64::MIN < self.position.y < i64::MAX,
        ensures
            r@ == self.spec_positions(),
    {
        self.get_positions()
    }
}

/// Index of the first entity in the list whose footprint covers `c`, the
/// answer a point-containment query gives.
pub open spec fn first_entity_index_at(s: Seq<Entity>, c: Position) -> Option<int>
    decreases s.len(),
{
    if s.len() == 0 {
        None
    } else if s[0].spec_positions().contains(c) {
        Some(0int)
    } else {
        match first_entity_index_at(s.drop_first(), c) {
            None => None,
            Some(i) => Some(i + 1),
        }
    }
}

/// What the first-match index means: it points at the first entity whose
/// footprint covers the cell, and it is `None` exactly when no footprint
/// does.
pub proof fn lemma_first_entity_index_at(s: Seq<Entity>, c: Position)
    ensures
        match first_entity_index_at(s, c) {
            Some(i) => 0 <= i < s.len() && s[i].spec_positions().contains(c) && forall|j: int|
                0 <= j < i ==> !(#[trigger] s[j].spec_positions()).contains(c),
            None => forall|j: int|
                0 <= j < s.len() ==> !(#[trigger] s[j].spec_positions()).contains(c),
        },
    decreases s.len(),
{
    if s.len() == 0 {
    } else if s[0].spec_positions().contains(c) {
    } else {
        lemma_first_entity_index_at(s.drop_first(), c);
        assert forall|j: int| 0 <= j < s.len() && j >= 1 implies s.drop_first()[j - 1]
            == s[j] by {}
    }
}

/// One blueprint: the ordered collection of placed entities.
#[derive(Clone, Debug, PartialEq)]
pub struct Blueprint {
    pub entities: Vec<Entity>,
}

impl Blueprint {
    /// Every entity stands inside the coordinate range the analysis
    /// accepts, and entity numbers really are identities: no two entities
    /// share one.
    pub open spec fn well_formed(self) -> bool {
        &&& forall|i: int|
            0 <= i < self.entities@.len() ==> (#[trigger] self.entities@[i]).position.bounded()
        &&& forall|i: int, j: int|
            0 <= i < self.entities@.len() && 0 <= j < self.entities@.len() && i != j
                ==> self.entities@[i].entity_number != self.entities@[j].entity_number
    }

    /// Every entity has a settled footprint rule.
    pub open spec fn all_supported(self) -> bool {
        forall|i: int|
            0 <= i < self.entities@.len() ==> (#[trigger] self.entities@[i]).ty.spec_has_footprint()
    }

    /// No cell is covered by the footprints of two different entities.
    pub open spec fn no_overlap(self) -> bool {
        forall|i: int, j: int, c: Position|
            #![trigger self.entities@[i].spec_positions().contains(c),
                self.entities@[j].spec_positions().contains(c)]
            0 <= i < self.entities@.len() && 0 <= j < self.entities@.len() && i != j
                && self.entities@[i].spec_positions().contains(c)
                ==> !self.entities@[j].spec_positions().contains(c)
    }

    pub fn new(entities: Vec<Entity>) -> (r: Self)
        ensures
            r.entities == entities,
    {
        Blueprint { entities }
    }

    /// Index of the first entity whose footprint covers `pos`, by linear
    /// scan.
    pub(crate) fn entity_index(&self, pos: &Position) -> (r: Option<usize>)
        requires
            self.well_formed(),
            self.all_supported(),
        ensures
            match r {
                Some(i) => first_entity_index_at(self.entities@, *pos) == Some(i as int),
                None => first_entity_index_at(self.entities@, *pos) is None,
            },
    {
        let mut i: usize = 0;
        while i < self.entities.len()
            invariant
                self.well_formed(),
                self.all_supported(),
                i <= self.entities@.len(),
                forall|j: int|
                    0 <= j < i ==> !(#[trigger] self.entities@[j].spec_positions()).contains(*pos),
            decreases self.entities@.len() - i,
        {
            let cells = self.entities[i].get_positions();
            if contains_position(&cells, pos) {
                proof {
                    lemma_first_entity_index_at(self.entities@, *pos);
                }
                return Some(i);
            }
            i += 1;
        }
        proof {
            lemma_first_entity_index_at(self.entities@, *pos);
        }
        None
    }

    /// Which entity, if any, occupies this cell: the first whose footprint
    /// contains it.
    pub fn entity_at(&self, pos: &Position) -> (r: Option<&Entity>)
        requires
            self.well_formed(),
            self.all_supported(),
        ensures
            match r {
                Some(e) => first_entity_index_at(self.entities@, *pos) matches Some(i) && *e
                    == self.entities@[i],
                None => first_entity_index_at(self.entities@, *pos) is None,
            },
    {
        match self.entity_index(pos) {
            Some(i) => {
                proof {
                    lemma_first_entity_index_at(self.entities@, *pos);
                }
                Some(&self.entities[i])
            },
            None => None,
        }
    }
}

/// Linear membership test over a footprint.
pub(crate) fn contains_position(v: &Vec<Position>, p: &Position) -> (r: bool)
    ensures
        r == v@.contains(*p),
{
    let mut k: usize = 0;
    while k < v.len()
        invariant
            k <= v@.len(),
            forall|j: int| 0 <= j < k ==> v@[j] != *p,
        decreases v@.len() - k,
    {
        if v[k] == *p {
            assert(v@.contains(*p));
            return true;
        }
        k += 1;
    }
    false
}

} // verus!
