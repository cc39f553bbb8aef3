use vstd::prelude::*;
use vstd::set_lib::{lemma_int_range, lemma_len_subset, set_int_range};

use crate::entities::{
    adjacent, first_entity_index_at, lemma_first_entity_index_at, Blueprint, Entity, Position,
    COORD_LIMIT,
};

verus! {

broadcast use vstd::seq_lib::lemma_seq_contains_after_push;

/// Why a whole analysis run can fail: some entity's footprint rule is not
/// settled, and a guessed footprint could make the result unsound in either
/// direction.
#[derive(Clone, Copy, Debug, PartialEq, Eq, Structural)]
pub enum AnalysisError {
    UnsupportedVariant,
}

/// `i` names an entity of the layout and `k` one cell of its footprint.
pub open spec fn cell_index_ok(bp: Blueprint, i: int, k: int) -> bool {
    0 <= i < bp.entities@.len() && 0 <= k < bp.entities@[i].spec_positions().len()
}

/// The footprint cell named by `(i, k)`.
pub open spec fn cell_at(bp: Blueprint, i: int, k: int) -> Position {
    bp.entities@[i].spec_positions()[k]
}

/// `b = (min_x, min_y, max_x, max_y)` bounds every footprint cell of the
/// layout, and each of the four bounds is attained by some cell.
pub open spec fn is_extent(bp: Blueprint, b: (int, int, int, int)) -> bool {
    &&& forall|i: int, k: int|
        cell_index_ok(bp, i, k) ==> {
            let c = #[trigger] cell_at(bp, i, k);
            b.0 <= c.x && c.x <= b.2 && b.1 <= c.y && c.y <= b.3
        }
    &&& exists|i: int, k: int| cell_index_ok(bp, i, k) && (#[trigger] cell_at(bp, i, k)).x == b.0
    &&& exists|i: int, k: int| cell_index_ok(bp, i, k) && (#[trigger] cell_at(bp, i, k)).y == b.1
    &&& exists|i: int, k: int| cell_index_ok(bp, i, k) && (#[trigger] cell_at(bp, i, k)).x == b.2
    &&& exists|i: int, k: int| cell_index_ok(bp, i, k) && (#[trigger] cell_at(bp, i, k)).y == b.3
}

/// The bounding extent of the layout: the unique tuple satisfying
/// `is_extent` when the layout is non-empty.
pub open spec fn extent(bp: Blueprint) -> (int, int, int, int) {
    choose|b: (int, int, int, int)| is_extent(bp, b)
}

/// The extent is pinned down: two tuples that both bound the layout and
/// attain their bounds are equal.
pub proof fn lemma_extent_unique(bp: Blueprint, b1: (int, int, int, int), b2: (int, int, int, int))
    requires
        is_extent(bp, b1),
        is_extent(bp, b2),
    ensures
        b1 == b2,
{
    let (i0, k0) = choose|i: int, k: int|
        cell_index_ok(bp, i, k) && (#[trigger] cell_at(bp, i, k)).x == b1.0;
    let (i1, k1) = choose|i: int, k: int|
        cell_index_ok(bp, i, k) && (#[trigger] cell_at(bp, i, k)).y == b1.1;
    let (i2, k2) = choose|i: int, k: int|
        cell_index_ok(bp, i, k) && (#[trigger] cell_at(bp, i, k)).x == b1.2;
    let (i3, k3) = choose|i: int, k: int|
        cell_index_ok(bp, i, k) && (#[trigger] cell_at(bp, i, k)).y == b1.3;
    let (j0, l0) = choose|i: int, k: int|
        cell_index_ok(bp, i, k) && (#[trigger] cell_at(bp, i, k)).x == b2.0;
    let (j1, l1) = choose|i: int, k: int|
        cell_index_ok(bp, i, k) && (#[trigger] cell_at(bp, i, k)).y == b2.1;
    let (j2, l2) = choose|i: int, k: int|
        cell_index_ok(bp, i, k) && (#[trigger] cell_at(bp, i, k)).x == b2.2;
    let (j3, l3) = choose|i: int, k: int|
        cell_index_ok(bp, i, k) && (#[trigger] cell_at(bp, i, k)).y == b2.3;
    assert(b1.0 == b2.0 && b1.1 == b2.1 && b1.2 == b2.2 && b1.3 == b2.3);
}

/// Once some tuple is known to be the extent, `extent` returns it.
pub proof fn lemma_extent_is(bp: Blueprint, b: (int, int, int, int))
    requires
        is_extent(bp, b),
    ensures
        extent(bp) == b,
        is_extent(bp, extent(bp)),
{
    assert(is_extent(bp, extent(bp))) by {
        assert(exists|bb: (int, int, int, int)| is_extent(bp, bb));
    }
    lemma_extent_unique(bp, extent(bp), b);
}

/// The cell lies inside the bounding extent of the layout.
pub open spec fn in_box(bp: Blueprint, c: Position) -> bool {
    extent(bp).0 <= c.x <= extent(bp).2 && extent(bp).1 <= c.y <= extent(bp).3
}

/// The cell lies on the border ring of the bounding extent, where the
/// traversal is seeded: the unbounded exterior is collapsed onto this ring.
pub open spec fn on_perimeter(bp: Blueprint, c: Position) -> bool {
    in_box(bp, c) && (c.x == extent(bp).0 || c.x == extent(bp).2 || c.y == extent(bp).1 || c.y
        == extent(bp).3)
}

/// The contaminant spreads through this cell: it is open space, or occupied
/// by a non-blocking entity.
pub open spec fn passable(bp: Blueprint, c: Position) -> bool {
    match first_entity_index_at(bp.entities@, c) {
        None => true,
        Some(i) => !bp.entities@[i].ty.spec_is_blocking(),
    }
}

/// The cell can be contaminated within `n` spreading steps: it is on the
/// perimeter ring, or a passable cell reached in fewer steps is adjacent to
/// it.
pub open spec fn reached_in(bp: Blueprint, c: Position, n: nat) -> bool
    decreases n,
{
    if n == 0 {
        on_perimeter(bp, c)
    } else {
        reached_in(bp, c, (n - 1) as nat) || (in_box(bp, c) && exists|d: Position|
            #[trigger] adjacent(d, c) && reached_in(bp, d, (n - 1) as nat) && passable(bp, d))
    }
}

/// The cell is reachable by the contaminant spreading inward from the
/// perimeter ring.
pub open spec fn reached(bp: Blueprint, c: Position) -> bool {
    exists|n: nat| reached_in(bp, c, n)
}

/// Entity `i` of the layout is unprotected: it does not block, and the
/// point query answers `i` for some reachable cell.
pub open spec fn unprotected_index(bp: Blueprint, i: int) -> bool {
    &&& 0 <= i < bp.entities@.len()
    &&& !bp.entities@[i].ty.spec_is_blocking()
    &&& exists|c: Position|
        #[trigger] reached(bp, c) && first_entity_index_at(bp.entities@, c) == Some(i)
}

/// The set of entities the analysis must report: exactly those standing at
/// an unprotected index.
pub open spec fn unprotected_set(bp: Blueprint) -> Set<Entity> {
    Set::new(
        |e: Entity| exists|i: int| #[trigger] unprotected_index(bp, i) && bp.entities@[i] == e,
    )
}

/// Spreading one passable step preserves reachability.
pub proof fn lemma_reached_step(bp: Blueprint, c: Position, d: Position)
    requires
        reached(bp, c),
        passable(bp, c),
        adjacent(c, d),
        in_box(bp, d),
    ensures
        reached(bp, d),
{
    let n = choose|n: nat| reached_in(bp, c, n);
    assert(reached_in(bp, d, n + 1)) by {
        assert(adjacent(c, d) && reached_in(bp, c, n) && passable(bp, c));
    }
}

/// A set of cells that contains the perimeter ring and is closed under
/// passable spreading contains everything reachable in `n` steps.
proof fn lemma_reached_in_closed(bp: Blueprint, vs: Seq<Position>, n: nat)
    requires
        forall|c: Position| on_perimeter(bp, c) ==> vs.contains(c),
        forall|c: Position, d: Position|
            #![trigger adjacent(c, d)]
            vs.contains(c) && passable(bp, c) && adjacent(c, d) && in_box(bp, d) ==> vs.contains(d),
    ensures
        forall|c: Position| reached_in(bp, c, n) ==> vs.contains(c),
    decreases n,
{
    if n > 0 {
        lemma_reached_in_closed(bp, vs, (n - 1) as nat);
        assert forall|c: Position| reached_in(bp, c, n) implies vs.contains(c) by {
            if !reached_in(bp, c, (n - 1) as nat) {
                let d = choose|d: Position|
                    #[trigger] adjacent(d, c) && reached_in(bp, d, (n - 1) as nat) && passable(
                        bp,
                        d,
                    );
                assert(vs.contains(d));
            }
        }
    }
}

/// A set of cells that contains the perimeter ring and is closed under
/// passable spreading contains every reachable cell.
pub proof fn lemma_reached_closed(bp: Blueprint, vs: Seq<Position>)
    requires
        forall|c: Position| on_perimeter(bp, c) ==> vs.contains(c),
        forall|c: Position, d: Position|
            #![trigger adjacent(c, d)]
            vs.contains(c) && passable(bp, c) && adjacent(c, d) && in_box(bp, d) ==> vs.contains(d),
    ensures
        forall|c: Position| reached(bp, c) ==> vs.contains(c),
{
    assert forall|c: Position| reached(bp, c) implies vs.contains(c) by {
        let n = choose|n: nat| reached_in(bp, c, n);
        lemma_reached_in_closed(bp, vs, n);
    }
}

/// A chain of distinct cells in a box of width `w` and height `h` holds at
/// most `w * h` cells.
proof fn lemma_box_count(s: Seq<Position>, x0: int, y0: int, x1: int, y1: int)
    requires
        s.no_duplicates(),
        forall|j: int| 0 <= j < s.len() ==> x0 <= (#[trigger] s[j]).x <= x1 && y0 <= s[j].y <= y1,
        x0 <= x1,
        y0 <= y1,
    ensures
        s.len() <= (x1 - x0 + 1) * (y1 - y0 + 1),
{
    let w = x1 - x0 + 1;
    let h = y1 - y0 + 1;
    let f = |p: Position| (p.x - x0) * h + (p.y - y0);
    let t = s.map_values(f);
    assert(t.no_duplicates()) by {
        assert forall|i: int, j: int|
            0 <= i < t.len() && 0 <= j < t.len() && i != j implies t[i] != t[j] by {
            let p = s[i];
            let q = s[j];
            assert(p != q);
            if p.x == q.x {
                assert(f(p) != f(q)) by (nonlinear_arith)
                    requires
                        p.x == q.x,
                        p.y != q.y,
                        f(p) == (p.x - x0) * h + (p.y - y0),
                        f(q) == (q.x - x0) * h + (q.y - y0),
                ;
            } else {
                assert(f(p) != f(q)) by (nonlinear_arith)
                    requires
                        p.x != q.x,
                        y0 <= p.y <= y1,
                        y0 <= q.y <= y1,
                        h == y1 - y0 + 1,
                        f(p) == (p.x - x0) * h + (p.y - y0),
                        f(q) == (q.x - x0) * h + (q.y - y0),
                ;
            }
        }
    }
    assert forall|j: int| 0 <= j < t.len() implies 0 <= #[trigger] t[j] < w * h by {
        let p = s[j];
        assert(0 <= (p.x - x0) * h + (p.y - y0) < w * h) by (nonlinear_arith)
            requires
                0 <= p.x - x0 <= w - 1,
                0 <= p.y - y0 <= h - 1,
                h == y1 - y0 + 1,
                w == x1 - x0 + 1,
                y0 <= y1,
                x0 <= x1,
        ;
        assert(t[j] == f(p));
    }
    t.unique_seq_to_set();
    assert(t.to_set().subset_of(set_int_range(0, w * h)));
    lemma_int_range(0, w * h);
    lemma_len_subset(t.to_set(), set_int_range(0, w * h));
}

/// `i` occurs among the recorded indices.
pub open spec fn recorded(s: Seq<usize>, i: int) -> bool {
    exists|j: int| 0 <= j < s.len() && #[trigger] s[j] as int == i
}

/// Linear membership test over the recorded indices.
fn contains_index(v: &Vec<usize>, x: usize) -> (r: bool)
    ensures
        r == recorded(v@, x as int),
{
    let mut k: usize = 0;
    while k < v.len()
        invariant
            k <= v@.len(),
            forall|j: int| 0 <= j < k ==> #[trigger] v@[j] != x,
        decreases v@.len() - k,
    {
        if v[k] == x {
            assert(v@[k as int] as int == x as int);
            return true;
        }
        k += 1;
    }
    assert forall|j: int| 0 <= j < v@.len() implies #[trigger] v@[j] as int != x as int by {}
    false
}

/// Mark the cell visited and schedule it, unless it was already seen.
fn push_if_new(queue: &mut Vec<Position>, visited: &mut Vec<Position>, p: Position)
    ensures
        old(visited)@.contains(p) ==> final(visited)@ == old(visited)@ && final(queue)@ == old(
            queue,
        )@,
        !old(visited)@.contains(p) ==> final(visited)@ == old(visited)@.push(p) && final(queue)@
            == old(queue)@.push(p),
        final(visited)@.contains(p),
        forall|c: Position| old(visited)@.contains(c) ==> final(visited)@.contains(c),
        old(visited)@.no_duplicates() ==> final(visited)@.no_duplicates(),
        old(queue)@.no_duplicates() && old(queue)@.to_set() == old(visited)@.to_set()
            ==> final(queue)@.no_duplicates() && final(queue)@.to_set() == final(visited)@.to_set(),
{
    if !crate::entities::contains_position(visited, &p) {
        visited.push(p);
        queue.push(p);
        proof {
            assert forall|j: int| 0 <= j < old(visited)@.len() implies old(visited)@[j] != p by {
                if old(visited)@[j] == p {
                    assert(old(visited)@.contains(p));
                }
            }
            if old(queue)@.no_duplicates() && old(queue)@.to_set() == old(visited)@.to_set() {
                assert(!old(queue)@.contains(p)) by {
                    if old(queue)@.contains(p) {
                        assert(old(queue)@.to_set().contains(p));
                        assert(old(visited)@.to_set().contains(p));
                    }
                }
                assert forall|j: int| 0 <= j < old(queue)@.len() implies old(queue)@[j] != p by {
                    if old(queue)@[j] == p {
                        assert(old(queue)@.contains(p));
                    }
                }
                assert forall|c: Position| queue@.contains(c) <==> visited@.contains(c) by {
                    assert(queue@.contains(c) <==> p == c || old(queue)@.contains(c));
                    assert(visited@.contains(c) <==> p == c || old(visited)@.contains(c));
                    if old(queue)@.contains(c) {
                        assert(old(queue)@.to_set().contains(c));
                        assert(old(visited)@.to_set().contains(c));
                    }
                    if old(visited)@.contains(c) {
                        assert(old(visited)@.to_set().contains(c));
                        assert(old(queue)@.to_set().contains(c));
                    }
                }
                assert(queue@.to_set() =~= visited@.to_set());
            }
        }
    }
}

/// The bounding extent of all footprint cells, by a running fold over every
/// cell of every entity.
fn get_borders(bp: &Blueprint) -> (r: (i64, i64, i64, i64))
    requires
        bp.well_formed(),
        bp.all_supported(),
        bp.entities@.len() > 0,
    ensures
        is_extent(*bp, (r.0 as int, r.1 as int, r.2 as int, r.3 as int)),
        -(COORD_LIMIT as int) - 1 <= r.0 as int <= r.2 as int <= COORD_LIMIT as int + 1,
        -(COORD_LIMIT as int) - 1 <= r.1 as int <= r.3 as int <= COORD_LIMIT as int + 1,
{
    proof {
        lemma_cell_bounded(*bp);
        assert(bp.entities@[0].spec_positions().len() > 0);
    }
    let first_cells = bp.entities[0].get_positions();
    let c0 = first_cells[0];
    let mut min_x = c0.x;
    let mut min_y = c0.y;
    let mut max_x = c0.x;
    let mut max_y = c0.y;
    let ghost mut wxi: int = 0;
    let ghost mut wxk: int = 0;
    let ghost mut wyi: int = 0;
    let ghost mut wyk: int = 0;
    let ghost mut wzi: int = 0;
    let ghost mut wzk: int = 0;
    let ghost mut wwi: int = 0;
    let ghost mut wwk: int = 0;
    let mut i: usize = 0;
    while i < bp.entities.len()
        invariant
            bp.well_formed(),
            bp.all_supported(),
            bp.entities@.len() > 0,
            i <= bp.entities@.len(),
            cell_index_ok(*bp, wxi, wxk) && cell_at(*bp, wxi, wxk).x == min_x as int,
            cell_index_ok(*bp, wyi, wyk) && cell_at(*bp, wyi, wyk).y == min_y as int,
            cell_index_ok(*bp, wzi, wzk) && cell_at(*bp, wzi, wzk).x == max_x as int,
            cell_index_ok(*bp, wwi, wwk) && cell_at(*bp, wwi, wwk).y == max_y as int,
            forall|i2: int, k2: int|
                cell_index_ok(*bp, i2, k2) && i2 < i ==> {
                    let c = #[trigger] cell_at(*bp, i2, k2);
                    min_x as int <= c.x && c.x <= max_x as int && min_y as int <= c.y && c.y
                        <= max_y as int
                },
        decreases bp.entities@.len() - i,
    {
        let cells = bp.entities[i].get_positions();
        let mut k: usize = 0;
        while k < cells.len()
            invariant
                bp.well_formed(),
                bp.all_supported(),
                i < bp.entities@.len(),
                k <= cells@.len(),
                cells@ == bp.entities@[i as int].spec_positions(),
                cell_index_ok(*bp, wxi, wxk) && cell_at(*bp, wxi, wxk).x == min_x as int,
                cell_index_ok(*bp, wyi, wyk) && cell_at(*bp, wyi, wyk).y == min_y as int,
                cell_index_ok(*bp, wzi, wzk) && cell_at(*bp, wzi, wzk).x == max_x as int,
                cell_index_ok(*bp, wwi, wwk) && cell_at(*bp, wwi, wwk).y == max_y as int,
                forall|i2: int, k2: int|
                    cell_index_ok(*bp, i2, k2) && (i2 < i || (i2 == i && k2 < k)) ==> {
                        let c = #[trigger] cell_at(*bp, i2, k2);
                        min_x as int <= c.x && c.x <= max_x as int && min_y as int <= c.y && c.y
                            <= max_y as int
                    },
            decreases cells@.len() - k,
        {
            let c = cells[k];
            assert(c == cell_at(*bp, i as int, k as int));
            if c.x < min_x {
                min_x = c.x;
                proof {
                    wxi = i as int;
                    wxk = k as int;
                }
            }
            if c.y < min_y {
                min_y = c.y;
                proof {
                    wyi = i as int;
                    wyk = k as int;
                }
            }
            if c.x > max_x {
                max_x = c.x;
                proof {
                    wzi = i as int;
                    wzk = k as int;
                }
            }
            if c.y > max_y {
                max_y = c.y;
                proof {
                    wwi = i as int;
                    wwk = k as int;
                }
            }
            k += 1;
        }
        i += 1;
    }
    proof {
        lemma_cell_bounded(*bp);
        assert(exists|i2: int, k2: int|
            cell_index_ok(*bp, i2, k2) && (#[trigger] cell_at(*bp, i2, k2)).x == min_x as int);
        assert(exists|i2: int, k2: int|
            cell_index_ok(*bp, i2, k2) && (#[trigger] cell_at(*bp, i2, k2)).y == min_y as int);
        assert(exists|i2: int, k2: int|
            cell_index_ok(*bp, i2, k2) && (#[trigger] cell_at(*bp, i2, k2)).x == max_x as int);
        assert(exists|i2: int, k2: int|
            cell_index_ok(*bp, i2, k2) && (#[trigger] cell_at(*bp, i2, k2)).y == max_y as int);
    }
    (min_x, min_y, max_x, max_y)
}

/// The structural safety analysis: which entities can the contaminant
/// touch, spreading inward from the unbounded exterior? It is seeded on the
/// border ring of the layout's extent, spreads through open cells and
/// non-blocking entities, and is absorbed by walls. Every non-blocking
/// entity it touches is reported exactly once; walls are never reported.
/// A layout without entities has nothing to protect and yields the empty
/// set; a layout holding a variant without a settled footprint rule is
/// rejected outright, since a guessed footprint would make the answer
/// unsound.
#[verifier::loop_isolation(false)]
pub fn check_for_bugs(bp: Blueprint) -> (r: Result<Vec<Entity>, AnalysisError>)
    requires
        bp.well_formed(),
    ensures
        match r {
            Ok(v) => {
                &&& bp.all_supported()
                &&& v@.no_duplicates()
                &&& v@.to_set() == unprotected_set(bp)
            },
            Err(e) => e == AnalysisError::UnsupportedVariant && !bp.all_supported(),
        },
{
    let ghost bpg = bp;
    let n = bp.entities.len();

    // Fail fast if any entity lacks a settled footprint rule.
    let mut i: usize = 0;
    while i < n
        invariant
            i <= n,
            forall|j: int| 0 <= j < i ==> (#[trigger] bp.entities@[j]).ty.spec_has_footprint(),
        decreases n - i,
    {
        if !bp.entities[i].ty.has_footprint() {
            proof {
                assert(!bp.entities@[i as int].ty.spec_has_footprint());
            }
            return Err(AnalysisError::UnsupportedVariant);
        }
        i += 1;
    }
    assert(bp.all_supported());

    // Nothing to protect, nothing to report.
    if n == 0 {
        let v: Vec<Entity> = Vec::new();
        proof {
            assert forall|e: Entity| !unprotected_set(bp).contains(e) by {
                if unprotected_set(bp).contains(e) {
                    let i2 = choose|i2: int|
                        #[trigger] unprotected_index(bp, i2) && bp.entities@[i2] == e;
                }
            }
            assert(v@.to_set() =~= unprotected_set(bp));
        }
        return Ok(v);
    }

    let b = get_borders(&bp);
    let min_x = b.0;
    let min_y = b.1;
    let max_x = b.2;
    let max_y = b.3;
    proof {
        lemma_extent_is(bp, (min_x as int, min_y as int, max_x as int, max_y as int));
    }
    let ghost area: int = (max_x as int - min_x as int + 1) * (max_y as int - min_y as int + 1);

    let mut queue: Vec<Position> = Vec::new();
    let mut visited: Vec<Position> = Vec::new();

    // Seed the bottom and top edges of the extent.
    let mut x = min_x;
    while x <= max_x
        invariant
            min_x as int <= x as int <= max_x as int + 1,
            visited@.no_duplicates(),
            queue@.no_duplicates(),
            queue@.to_set() == visited@.to_set(),
            forall|j: int| 0 <= j < visited@.len() ==> on_perimeter(bp, #[trigger] visited@[j]),
            forall|c: Position|
                #[trigger] in_box(bp, c) && (c.y == min_y as int || c.y == max_y as int) && c.x
                    < x as int ==> visited@.contains(c),
        decreases max_x as int + 1 - x as int,
    {
        push_if_new(&mut queue, &mut visited, Position { x, y: min_y });
        push_if_new(&mut queue, &mut visited, Position { x, y: max_y });
        x += 1;
    }

    // Seed the left and right edges, the corner rows being covered already.
    let mut y = min_y + 1;
    while y < max_y
        invariant
            min_y as int + 1 <= y as int,
            visited@.no_duplicates(),
            queue@.no_duplicates(),
            queue@.to_set() == visited@.to_set(),
            forall|j: int| 0 <= j < visited@.len() ==> on_perimeter(bp, #[trigger] visited@[j]),
            forall|c: Position|
                #[trigger] in_box(bp, c) && (c.y == min_y as int || c.y == max_y as int)
                    ==> visited@.contains(c),
            forall|c: Position|
                #[trigger] in_box(bp, c) && (c.x == min_x as int || c.x == max_x as int)
                    && (min_y as int) < c.y && c.y < (y as int) ==> visited@.contains(c),
        decreases max_y as int - y as int,
    {
        push_if_new(&mut queue, &mut visited, Position { x: min_x, y });
        push_if_new(&mut queue, &mut visited, Position { x: max_x, y });
        y += 1;
    }

    proof {
        assert forall|c: Position| on_perimeter(bp, c) implies visited@.contains(c) by {
            assert(in_box(bp, c));
        }
        assert forall|j: int|
            0 <= j < visited@.len() implies in_box(bp, #[trigger] visited@[j]) && reached(
            bp,
            visited@[j],
        ) by {
            assert(on_perimeter(bp, visited@[j]));
            assert(reached_in(bp, visited@[j], 0));
        }
        lemma_box_count(visited@, min_x as int, min_y as int, max_x as int, max_y as int);
        assert forall|c: Position| #[trigger] queue@.contains(c) implies visited@.contains(c) by {
            assert(queue@.to_set().contains(c));
            assert(visited@.to_set().contains(c));
        }
        assert forall|c: Position| #[trigger] visited@.contains(c) implies queue@.contains(c) by {
            assert(visited@.to_set().contains(c));
            assert(queue@.to_set().contains(c));
        }
    }

    let mut found: Vec<usize> = Vec::new();

    // Frontier traversal: pop a scheduled cell, classify what stands there,
    // record and spread or absorb.
    while queue.len() > 0
        invariant
            bp.all_supported(),
            forall|c: Position| #[trigger] queue@.contains(c) ==> visited@.contains(c),
            forall|j: int|
                0 <= j < visited@.len() ==> in_box(bp, #[trigger] visited@[j]) && reached(
                    bp,
                    visited@[j],
                ),
            visited@.no_duplicates(),
            queue@.no_duplicates(),
            visited@.len() <= area,
            forall|c: Position| on_perimeter(bp, c) ==> visited@.contains(c),
            forall|c: Position, d: Position|
                #![trigger adjacent(c, d)]
                visited@.contains(c) && !queue@.contains(c) && passable(bp, c) && adjacent(c, d)
                    && in_box(bp, d) ==> visited@.contains(d),
            forall|j: int|
                0 <= j < found@.len() ==> unprotected_index(bp, #[trigger] found@[j] as int),
            found@.no_duplicates(),
            forall|c: Position|
                #![trigger first_entity_index_at(bp.entities@, c)]
                visited@.contains(c) && !queue@.contains(c) ==> match first_entity_index_at(
                    bp.entities@,
                    c,
                ) {
                    Some(i2) => bp.entities@[i2].ty.spec_is_blocking() || recorded(found@, i2),
                    None => true,
                },
        decreases (area - visited@.len()) * 5 + queue@.len(),
    {
        let ghost old_queue = queue@;
        let ghost old_found = found@;
        let pos = queue.pop().unwrap();
        proof {
            assert(old_queue.contains(pos)) by {
                assert(old_queue[old_queue.len() - 1] == pos);
            }
            assert(visited@.contains(pos));
            assert(!queue@.contains(pos)) by {
                assert forall|j: int| 0 <= j < queue@.len() implies queue@[j] != pos by {
                    assert(queue@[j] == old_queue[j]);
                }
            }
            let jx = choose|j: int| 0 <= j < visited@.len() && visited@[j] == pos;
            assert(in_box(bp, visited@[jx]));
            assert(in_box(bp, pos) && reached(bp, pos));
        }

        let mut absorb = false;
        match bp.entity_index(&pos) {
            None => {},
            Some(ei) => {
                proof {
                    lemma_first_entity_index_at(bp.entities@, pos);
                }
                if bp.entities[ei].ty.is_blocking() {
                    absorb = true;
                } else {
                    proof {
                        assert(unprotected_index(bp, ei as int)) by {
                            assert(reached(bp, pos) && first_entity_index_at(bp.entities@, pos)
                                == Some(ei as int));
                        }
                    }
                    if !contains_index(&found, ei) {
                        found.push(ei);
                        proof {
                            assert(recorded(found@, ei as int)) by {
                                assert(found@[found@.len() - 1] == ei);
                            }
                        }
                    }
                }
            },
        }

        proof {
            assert forall|c: Position| #[trigger] queue@.contains(c) implies visited@.contains(
                c,
            ) by {
                let j = choose|j: int| 0 <= j < queue@.len() && queue@[j] == c;
                assert(old_queue[j] == c);
                assert(old_queue.contains(c));
            }
            assert forall|c: Position|
                visited@.contains(c) && !queue@.contains(c) && c != pos implies !old_queue.contains(
                c,
            ) by {
                if old_queue.contains(c) {
                    let j = choose|j: int| 0 <= j < old_queue.len() && old_queue[j] == c;
                    if j < old_queue.len() - 1 {
                        assert(queue@[j] == c);
                    }
                }
            }
            assert forall|c: Position, d: Position|
                #![trigger adjacent(c, d)]
                visited@.contains(c) && !queue@.contains(c) && c != pos && passable(bp, c)
                    && adjacent(c, d) && in_box(bp, d) implies visited@.contains(d) by {
                assert(!old_queue.contains(c));
            }
            assert forall|c: Position|
                #![trigger first_entity_index_at(bp.entities@, c)]
                visited@.contains(c) && !queue@.contains(c) && c != pos implies match first_entity_index_at(
                bp.entities@,
                c,
            ) {
                Some(i2) => bp.entities@[i2].ty.spec_is_blocking() || recorded(found@, i2),
                None => true,
            } by {
                assert(!old_queue.contains(c));
                let fo = first_entity_index_at(bp.entities@, c);
                if fo is Some {
                    let i2 = fo.unwrap();
                    if !bp.entities@[i2].ty.spec_is_blocking() {
                        assert(recorded(old_found, i2));
                        let jj = choose|jj: int|
                            0 <= jj < old_found.len() && #[trigger] old_found[jj] as int == i2;
                        assert(found@[jj] as int == i2);
                    }
                }
            }
        }

        if !absorb {
            assert(passable(bp, pos));
            let ghost v_before = visited@.len();
            let ghost q_before = queue@.len();
            let ns = pos.neighbours();
            let mut k: usize = 0;
            while k < ns.len()
                invariant
                    ns@.len() == 4,
                    k <= 4,
                    visited@.len() - v_before == queue@.len() - q_before,
                    v_before <= visited@.len(),
                    forall|k2: int| 0 <= k2 < 4 ==> adjacent(pos, #[trigger] ns@[k2]),
                    visited@.contains(pos),
                    !queue@.contains(pos),
                    forall|c: Position| #[trigger] queue@.contains(c) ==> visited@.contains(c),
                    forall|j: int|
                        0 <= j < visited@.len() ==> in_box(bp, #[trigger] visited@[j]) && reached(
                            bp,
                            visited@[j],
                        ),
                    visited@.no_duplicates(),
                    queue@.no_duplicates(),
                    visited@.len() <= area,
                    forall|c: Position| on_perimeter(bp, c) ==> visited@.contains(c),
                    forall|c: Position, d: Position|
                        #![trigger adjacent(c, d)]
                        visited@.contains(c) && !queue@.contains(c) && c != pos && passable(bp, c)
                            && adjacent(c, d) && in_box(bp, d) ==> visited@.contains(d),
                    forall|c: Position|
                        #![trigger first_entity_index_at(bp.entities@, c)]
                        visited@.contains(c) && !queue@.contains(c) ==> match first_entity_index_at(
                            bp.entities@,
                            c,
                        ) {
                            Some(i2) => bp.entities@[i2].ty.spec_is_blocking() || recorded(
                                found@,
                                i2,
                            ),
                            None => true,
                        },
                    forall|k2: int|
                        0 <= k2 < k ==> !in_box(bp, #[trigger] ns@[k2]) || visited@.contains(
                            ns@[k2],
                        ),
                decreases 4 - k,
            {
                let nb = ns[k];
                // Cells beyond the extent all belong to the one unbounded
                // exterior region that the seeded ring already stands for,
                // so the traversal never leaves the box.
                if nb.x >= min_x && nb.x <= max_x && nb.y >= min_y && nb.y <= max_y {
                    proof {
                        assert(in_box(bp, nb));
                    }
                    if !crate::entities::contains_position(&visited, &nb) {
                        proof {
                            assert(adjacent(pos, nb));
                            lemma_reached_step(bp, pos, nb);
                            assert(!queue@.contains(nb));
                        }
                        let ghost q0 = queue@;
                        let ghost v0 = visited@;
                        visited.push(nb);
                        queue.push(nb);
                        proof {
                            assert forall|j2: int| 0 <= j2 < q0.len() implies q0[j2] != nb by {
                                if q0[j2] == nb {
                                    assert(q0.contains(nb));
                                }
                            }
                            assert forall|j2: int| 0 <= j2 < v0.len() implies v0[j2] != nb by {
                                if v0[j2] == nb {
                                    assert(v0.contains(nb));
                                }
                            }
                            assert(queue@.no_duplicates());
                            assert(visited@.no_duplicates());
                            lemma_box_count(
                                visited@,
                                min_x as int,
                                min_y as int,
                                max_x as int,
                                max_y as int,
                            );
                        }
                    }
                }
                k += 1;
            }
            proof {
                assert forall|d: Position|
                    adjacent(pos, d) && in_box(bp, d) implies visited@.contains(d) by {
                    assert(ns@.contains(d));
                    let k2 = choose|k2: int| 0 <= k2 < ns@.len() && ns@[k2] == d;
                }
            }
        }
    }

    proof {
        assert forall|c: Position, d: Position|
            #![trigger adjacent(c, d)]
            visited@.contains(c) && passable(bp, c) && adjacent(c, d) && in_box(bp, d)
                implies visited@.contains(d) by {
            assert(!queue@.contains(c));
        }
        lemma_reached_closed(bp, visited@);
        assert forall|i2: int| unprotected_index(bp, i2) implies recorded(found@, i2) by {
            let c = choose|c: Position|
                #[trigger] reached(bp, c) && first_entity_index_at(bp.entities@, c) == Some(i2);
            assert(visited@.contains(c));
            assert(!queue@.contains(c));
        }
    }

    // Hand the unprotected entities back, in the order they stand in the
    // layout.
    let ghost orig = bp.entities@;
    let Blueprint { entities } = bp;
    let mut rest = entities;
    let mut result: Vec<Entity> = Vec::new();
    let mut idx: usize = 0;
    while idx < n
        invariant
            idx <= n,
            n == orig.len(),
            rest@ == orig.subrange(idx as int, n as int),
            forall|j: int|
                0 <= j < result@.len() ==> exists|i2: int|
                    0 <= i2 < idx && recorded(found@, i2) && orig[i2] == #[trigger] result@[j],
            forall|i2: int|
                0 <= i2 < idx && recorded(found@, i2) ==> result@.contains(#[trigger] orig[i2]),
            result@.no_duplicates(),
        decreases n - idx,
    {
        proof {
            assert(rest@[0] == orig[idx as int]);
        }
        let e = rest.remove(0);
        proof {
            assert(rest@ =~= orig.subrange(idx as int + 1, n as int));
        }
        let ghost old_result = result@;
        let had = contains_index(&found, idx);
        if had {
            proof {
                assert forall|j: int| 0 <= j < result@.len() implies result@[j] != e by {
                    let i2 = choose|i2: int|
                        0 <= i2 < idx && recorded(found@, i2) && orig[i2] == result@[j];
                    assert(bpg.entities@[i2].entity_number != bpg.entities@[idx as int
                        ].entity_number);
                }
            }
            result.push(e);
        }
        proof {
            assert forall|j: int|
                0 <= j < result@.len() implies exists|i2: int|
                    0 <= i2 < idx as int + 1 && recorded(found@, i2) && orig[i2]
                        == #[trigger] result@[j] by {
                if j < old_result.len() {
                    assert(result@[j] == old_result[j]);
                    let i2 = choose|i2: int|
                        0 <= i2 < idx as int && recorded(found@, i2) && orig[i2] == old_result[j];
                    assert(0 <= i2 < idx as int + 1 && recorded(found@, i2) && orig[i2]
                        == result@[j]);
                } else {
                    assert(had);
                    assert(result@[j] == e);
                    assert(0 <= (idx as int) && (idx as int) < idx as int + 1 && recorded(
                        found@,
                        idx as int,
                    ) && orig[idx as int] == result@[j]);
                }
            }
            assert forall|i2: int|
                0 <= i2 < idx as int + 1 && recorded(found@, i2) implies result@.contains(
                #[trigger] orig[i2],
            ) by {
                if i2 < idx as int {
                    assert(old_result.contains(orig[i2]));
                    let j = choose|j: int| 0 <= j < old_result.len() && old_result[j] == orig[i2];
                    assert(result@[j] == orig[i2]);
                } else {
                    assert(had);
                    assert(result@[result@.len() - 1] == e);
                    assert(result@[result@.len() - 1] == orig[i2]);
                }
            }
        }
        idx += 1;
    }

    proof {
        assert forall|e: Entity|
            result@.to_set().contains(e) implies unprotected_set(bpg).contains(e) by {
            let j = choose|j: int| 0 <= j < result@.len() && result@[j] == e;
            let i2 = choose|i2: int|
                0 <= i2 < n && recorded(found@, i2) && orig[i2] == #[trigger] result@[j];
            let jj = choose|jj: int| 0 <= jj < found@.len() && #[trigger] found@[jj] as int == i2;
            assert(unprotected_index(bpg, i2) && bpg.entities@[i2] == e);
        }
        assert forall|e: Entity|
            unprotected_set(bpg).contains(e) implies result@.to_set().contains(e) by {
            let i2 = choose|i2: int| #[trigger] unprotected_index(bpg, i2) && bpg.entities@[i2]
                == e;
            assert(recorded(found@, i2));
            assert(result@.contains(orig[i2]));
        }
        assert(result@.to_set() =~= unprotected_set(bpg));
    }
    Ok(result)
}

/// The per-entity bounding box: one cell for small variants, the 3x3 ring
/// for block variants.
spec fn entity_bounds(e: Entity) -> (int, int, int, int) {
    let p = e.position;
    if e.ty.spec_is_block() {
        (p.x - 1, p.y - 1, p.x + 1, p.y + 1)
    } else {
        (p.x as int, p.y as int, p.x as int, p.y as int)
    }
}

/// The cells of one supported entity fill its own bounding box corners.
proof fn lemma_entity_cells(bp: Blueprint, i: int)
    requires
        bp.well_formed(),
        0 <= i < bp.entities@.len(),
        bp.entities@[i].ty.spec_has_footprint(),
    ensures
        bp.entities@[i].spec_positions().len() > 0,
        forall|k: int|
            0 <= k < bp.entities@[i].spec_positions().len() ==> {
                let c = #[trigger] cell_at(bp, i, k);
                entity_bounds(bp.entities@[i]).0 <= c.x <= entity_bounds(bp.entities@[i]).2
                    && entity_bounds(bp.entities@[i]).1 <= c.y <= entity_bounds(
                    bp.entities@[i],
                ).3
            },
        cell_at(bp, i, 0).x == entity_bounds(bp.entities@[i]).0,
        cell_at(bp, i, 0).y == entity_bounds(bp.entities@[i]).1,
        cell_at(bp, i, bp.entities@[i].spec_positions().len() - 1).x == entity_bounds(
            bp.entities@[i],
        ).2,
        cell_at(bp, i, bp.entities@[i].spec_positions().len() - 1).y == entity_bounds(
            bp.entities@[i],
        ).3,
{
    let e = bp.entities@[i];
    assert(e.position.bounded());
    if e.ty.spec_is_block() {
        assert(e.spec_positions() == crate::entities::block_cells(e.position));
    }
}

/// `b` bounds and is attained by the cells of the first `m` entities.
spec fn is_extent_upto(bp: Blueprint, m: int, b: (int, int, int, int)) -> bool {
    &&& forall|i: int, k: int|
        cell_index_ok(bp, i, k) && i < m ==> {
            let c = #[trigger] cell_at(bp, i, k);
            b.0 <= c.x && c.x <= b.2 && b.1 <= c.y && c.y <= b.3
        }
    &&& exists|i: int, k: int|
        cell_index_ok(bp, i, k) && i < m && (#[trigger] cell_at(bp, i, k)).x == b.0
    &&& exists|i: int, k: int|
        cell_index_ok(bp, i, k) && i < m && (#[trigger] cell_at(bp, i, k)).y == b.1
    &&& exists|i: int, k: int|
        cell_index_ok(bp, i, k) && i < m && (#[trigger] cell_at(bp, i, k)).x == b.2
    &&& exists|i: int, k: int|
        cell_index_ok(bp, i, k) && i < m && (#[trigger] cell_at(bp, i, k)).y == b.3
}

proof fn lemma_extent_exists_upto(bp: Blueprint, m: int)
    requires
        bp.well_formed(),
        bp.all_supported(),
        1 <= m <= bp.entities@.len(),
    ensures
        exists|b: (int, int, int, int)| #[trigger] is_extent_upto(bp, m, b),
    decreases m,
{
    lemma_entity_cells(bp, m - 1);
    let e = bp.entities@[m - 1];
    let eb = entity_bounds(e);
    let last = e.spec_positions().len() - 1;
    if m == 1 {
        assert(is_extent_upto(bp, 1, eb)) by {
            assert(cell_index_ok(bp, 0, 0) && cell_at(bp, 0, 0).x == eb.0);
            assert(cell_index_ok(bp, 0, 0) && cell_at(bp, 0, 0).y == eb.1);
            assert(cell_index_ok(bp, 0, last) && cell_at(bp, 0, last).x == eb.2);
            assert(cell_index_ok(bp, 0, last) && cell_at(bp, 0, last).y == eb.3);
        }
    } else {
        lemma_extent_exists_upto(bp, m - 1);
        let b0 = choose|b: (int, int, int, int)| #[trigger] is_extent_upto(bp, m - 1, b);
        let b = (
            if b0.0 <= eb.0 {
                b0.0
            } else {
                eb.0
            },
            if b0.1 <= eb.1 {
                b0.1
            } else {
                eb.1
            },
            if b0.2 >= eb.2 {
                b0.2
            } else {
                eb.2
            },
            if b0.3 >= eb.3 {
                b0.3
            } else {
                eb.3
            },
        );
        assert(is_extent_upto(bp, m, b)) by {
            if b.0 == b0.0 {
                let (i0, k0) = choose|i: int, k: int|
                    cell_index_ok(bp, i, k) && i < m - 1 && (#[trigger] cell_at(bp, i, k)).x
                        == b0.0;
                assert(cell_index_ok(bp, i0, k0) && i0 < m && cell_at(bp, i0, k0).x == b.0);
            } else {
                assert(cell_index_ok(bp, m - 1, 0) && cell_at(bp, m - 1, 0).x == b.0);
            }
            if b.1 == b0.1 {
                let (i1, k1) = choose|i: int, k: int|
                    cell_index_ok(bp, i, k) && i < m - 1 && (#[trigger] cell_at(bp, i, k)).y
                        == b0.1;
                assert(cell_index_ok(bp, i1, k1) && i1 < m && cell_at(bp, i1, k1).y == b.1);
            } else {
                assert(cell_index_ok(bp, m - 1, 0) && cell_at(bp, m - 1, 0).y == b.1);
            }
            if b.2 == b0.2 {
                let (i2, k2) = choose|i: int, k: int|
                    cell_index_ok(bp, i, k) && i < m - 1 && (#[trigger] cell_at(bp, i, k)).x
                        == b0.2;
                assert(cell_index_ok(bp, i2, k2) && i2 < m && cell_at(bp, i2, k2).x == b.2);
            } else {
                assert(cell_index_ok(bp, m - 1, last) && cell_at(bp, m - 1, last).x == b.2);
            }
            if b.3 == b0.3 {
                let (i3, k3) = choose|i: int, k: int|
                    cell_index_ok(bp, i, k) && i < m - 1 && (#[trigger] cell_at(bp, i, k)).y
                        == b0.3;
                assert(cell_index_ok(bp, i3, k3) && i3 < m && cell_at(bp, i3, k3).y == b.3);
            } else {
                assert(cell_index_ok(bp, m - 1, last) && cell_at(bp, m - 1, last).y == b.3);
            }
        }
    }
}

/// A non-empty layout of supported entities has a bounding extent.
pub proof fn lemma_extent_exists(bp: Blueprint)
    requires
        bp.well_formed(),
        bp.all_supported(),
        bp.entities@.len() > 0,
    ensures
        is_extent(bp, extent(bp)),
{
    let n = bp.entities@.len() as int;
    lemma_extent_exists_upto(bp, n);
    let b = choose|b: (int, int, int, int)| #[trigger] is_extent_upto(bp, n, b);
    assert(is_extent(bp, b)) by {
        let (i0, k0) = choose|i: int, k: int|
            cell_index_ok(bp, i, k) && i < n && (#[trigger] cell_at(bp, i, k)).x == b.0;
        assert(cell_index_ok(bp, i0, k0) && cell_at(bp, i0, k0).x == b.0);
        let (i1, k1) = choose|i: int, k: int|
            cell_index_ok(bp, i, k) && i < n && (#[trigger] cell_at(bp, i, k)).y == b.1;
        assert(cell_index_ok(bp, i1, k1) && cell_at(bp, i1, k1).y == b.1);
        let (i2, k2) = choose|i: int, k: int|
            cell_index_ok(bp, i, k) && i < n && (#[trigger] cell_at(bp, i, k)).x == b.2;
        assert(cell_index_ok(bp, i2, k2) && cell_at(bp, i2, k2).x == b.2);
        let (i3, k3) = choose|i: int, k: int|
            cell_index_ok(bp, i, k) && i < n && (#[trigger] cell_at(bp, i, k)).y == b.3;
        assert(cell_index_ok(bp, i3, k3) && cell_at(bp, i3, k3).y == b.3);
    }
    lemma_extent_is(bp, b);
}

/// A passable path from the perimeter ring contaminates its last cell: the
/// mechanism by which a single breach in a wall ring exposes whatever the
/// traversal can walk to from it.
pub proof fn lemma_path_reached(bp: Blueprint, path: Seq<Position>)
    requires
        path.len() > 0,
        on_perimeter(bp, path[0]),
        forall|k: int| 0 <= k < path.len() - 1 ==> passable(bp, #[trigger] path[k]),
        forall|k: int| 0 <= k < path.len() - 1 ==> adjacent(#[trigger] path[k], path[k + 1]),
        forall|k: int| 0 < k < path.len() ==> in_box(bp, #[trigger] path[k]),
    ensures
        reached(bp, path.last()),
    decreases path.len(),
{
    if path.len() == 1 {
        assert(reached_in(bp, path[0], 0));
    } else {
        let pre = path.drop_last();
        lemma_path_reached(bp, pre);
        assert(pre.last() == path[path.len() - 2]);
        lemma_reached_step(bp, path[path.len() - 2], path.last());
    }
}

/// Spreading runs along a row while every crossed cell is passable.
proof fn lemma_row_reach(bp: Blueprint, c: Position, d: Position)
    requires
        reached(bp, c),
        c.y == d.y,
        in_box(bp, d),
        forall|q: Position|
            q.y == c.y && (if c.x <= d.x {
                c.x <= q.x < d.x
            } else {
                d.x < q.x <= c.x
            }) ==> #[trigger] passable(bp, q) && in_box(bp, q),
    ensures
        reached(bp, d),
    decreases
            (if c.x <= d.x {
                d.x - c.x
            } else {
                c.x - d.x
            }),
{
    if c.x == d.x {
        assert(c == d);
    } else if c.x < d.x {
        let c2 = Position { x: (c.x + 1) as i64, y: c.y };
        assert(passable(bp, c) && in_box(bp, c));
        assert(in_box(bp, c2));
        lemma_reached_step(bp, c, c2);
        lemma_row_reach(bp, c2, d);
    } else {
        let c2 = Position { x: (c.x - 1) as i64, y: c.y };
        assert(passable(bp, c) && in_box(bp, c));
        assert(in_box(bp, c2));
        lemma_reached_step(bp, c, c2);
        lemma_row_reach(bp, c2, d);
    }
}

/// Spreading runs along a column while every crossed cell is passable.
proof fn lemma_col_reach(bp: Blueprint, c: Position, d: Position)
    requires
        reached(bp, c),
        c.x == d.x,
        in_box(bp, d),
        forall|q: Position|
            q.x == c.x && (if c.y <= d.y {
                c.y <= q.y < d.y
            } else {
                d.y < q.y <= c.y
            }) ==> #[trigger] passable(bp, q) && in_box(bp, q),
    ensures
        reached(bp, d),
    decreases
            (if c.y <= d.y {
                d.y - c.y
            } else {
                c.y - d.y
            }),
{
    if c.y == d.y {
        assert(c == d);
    } else if c.y < d.y {
        let c2 = Position { x: c.x, y: (c.y + 1) as i64 };
        assert(passable(bp, c) && in_box(bp, c));
        assert(in_box(bp, c2));
        lemma_reached_step(bp, c, c2);
        lemma_col_reach(bp, c2, d);
    } else {
        let c2 = Position { x: c.x, y: (c.y - 1) as i64 };
        assert(passable(bp, c) && in_box(bp, c));
        assert(in_box(bp, c2));
        lemma_reached_step(bp, c, c2);
        lemma_col_reach(bp, c2, d);
    }
}

/// Single breach: one passable cell on the border ring, away from the
/// corners, contaminates the whole interior of the extent when every
/// interior cell is passable — and with it every non-blocking entity the
/// point query answers for an interior cell. A corner cell is excluded
/// because its only in-box neighbours lie on the ring itself: breaching a
/// corner opens no diagonal way in.
pub proof fn lemma_single_breach(bp: Blueprint, b: Position)
    requires
        bp.well_formed(),
        bp.all_supported(),
        bp.entities@.len() > 0,
        on_perimeter(bp, b),
        passable(bp, b),
        (extent(bp).0 < b.x < extent(bp).2) || (extent(bp).1 < b.y < extent(bp).3),
        extent(bp).0 + 2 <= extent(bp).2,
        extent(bp).1 + 2 <= extent(bp).3,
        forall|c: Position|
            in_box(bp, c) && !on_perimeter(bp, c) ==> #[trigger] passable(bp, c),
    ensures
        forall|c: Position| in_box(bp, c) && !on_perimeter(bp, c) ==> #[trigger] reached(bp, c),
        forall|i: int, c: Position|
            #![trigger first_entity_index_at(bp.entities@, c), unprotected_index(bp, i)]
            in_box(bp, c) && !on_perimeter(bp, c) && first_entity_index_at(bp.entities@, c)
                == Some(i) && !bp.entities@[i].ty.spec_is_blocking() ==> unprotected_index(bp, i),
{
    lemma_extent_exists(bp);
    lemma_cell_bounded(bp);
    let ext = extent(bp);
    assert(-(COORD_LIMIT as int) - 1 <= ext.0 && ext.2 <= COORD_LIMIT as int + 1
        && -(COORD_LIMIT as int) - 1 <= ext.1 && ext.3 <= COORD_LIMIT as int + 1) by {
        let (i0, k0) = choose|i: int, k: int|
            cell_index_ok(bp, i, k) && (#[trigger] cell_at(bp, i, k)).x == ext.0;
        let (i1, k1) = choose|i: int, k: int|
            cell_index_ok(bp, i, k) && (#[trigger] cell_at(bp, i, k)).y == ext.1;
        let (i2, k2) = choose|i: int, k: int|
            cell_index_ok(bp, i, k) && (#[trigger] cell_at(bp, i, k)).x == ext.2;
        let (i3, k3) = choose|i: int, k: int|
            cell_index_ok(bp, i, k) && (#[trigger] cell_at(bp, i, k)).y == ext.3;
    }
    assert(reached_in(bp, b, 0));
    assert(reached(bp, b));
    // One step inward from the breach lands on an interior cell.
    let b2 = if ext.0 < b.x < ext.2 {
        if b.y == ext.1 {
            Position { x: b.x, y: (b.y + 1) as i64 }
        } else {
            Position { x: b.x, y: (b.y - 1) as i64 }
        }
    } else {
        if b.x == ext.0 {
            Position { x: (b.x + 1) as i64, y: b.y }
        } else {
            Position { x: (b.x - 1) as i64, y: b.y }
        }
    };
    assert(in_box(bp, b2) && !on_perimeter(bp, b2));
    assert(adjacent(b, b2));
    lemma_reached_step(bp, b, b2);
    // From that cell the open interior is filled row by row, column by
    // column.
    assert forall|c: Position|
        in_box(bp, c) && !on_perimeter(bp, c) implies #[trigger] reached(bp, c) by {
        let mid = Position { x: c.x, y: b2.y };
        assert(in_box(bp, mid) && !on_perimeter(bp, mid));
        lemma_row_reach(bp, b2, mid);
        lemma_col_reach(bp, mid, c);
    }
    assert forall|i: int, c: Position|
        in_box(bp, c) && !on_perimeter(bp, c) && first_entity_index_at(bp.entities@, c) == Some(i)
            && !bp.entities@[i].ty.spec_is_blocking() implies unprotected_index(bp, i) by {
        lemma_first_entity_index_at(bp.entities@, c);
        assert(reached(bp, c));
    }
}

/// No spreading step, however long, enters a region whose border is walls.
proof fn lemma_protected_unreached(bp: Blueprint, protected: Set<Position>, n: nat)
    requires
        forall|c: Position| on_perimeter(bp, c) ==> !protected.contains(c),
        forall|c: Position, d: Position|
            #![trigger adjacent(c, d)]
            protected.contains(d) && adjacent(c, d) && !protected.contains(c) ==> !passable(bp, c),
    ensures
        forall|c: Position| reached_in(bp, c, n) ==> !protected.contains(c),
    decreases n,
{
    if n > 0 {
        lemma_protected_unreached(bp, protected, (n - 1) as nat);
        assert forall|c: Position| reached_in(bp, c, n) implies !protected.contains(c) by {
            if !reached_in(bp, c, (n - 1) as nat) {
                let d = choose|d: Position|
                    #[trigger] adjacent(d, c) && reached_in(bp, d, (n - 1) as nat) && passable(
                        bp,
                        d,
                    );
                assert(!protected.contains(d));
                if protected.contains(c) {
                    assert(!passable(bp, d));
                }
            }
        }
    }
}

/// Wall containment: take any region of cells that stays off the perimeter
/// ring and whose every neighbouring cell is either inside the region or
/// holds a wall — a region fully enclosed by a closed ring of walls. If
/// every non-blocking entity stands entirely inside such a region, the
/// analysis reports nothing.
pub proof fn lemma_wall_containment(bp: Blueprint, protected: Set<Position>)
    requires
        forall|c: Position| on_perimeter(bp, c) ==> !protected.contains(c),
        forall|c: Position, d: Position|
            #![trigger adjacent(c, d)]
            protected.contains(d) && adjacent(c, d) && !protected.contains(c) ==> !passable(bp, c),
        forall|i: int, c: Position|
            #![trigger bp.entities@[i].spec_positions().contains(c)]
            0 <= i < bp.entities@.len() && !bp.entities@[i].ty.spec_is_blocking()
                && bp.entities@[i].spec_positions().contains(c) ==> protected.contains(c),
    ensures
        unprotected_set(bp) == Set::<Entity>::empty(),
{
    assert forall|e: Entity| !unprotected_set(bp).contains(e) by {
        if unprotected_set(bp).contains(e) {
            let i = choose|i: int| #[trigger] unprotected_index(bp, i) && bp.entities@[i] == e;
            let c = choose|c: Position|
                #[trigger] reached(bp, c) && first_entity_index_at(bp.entities@, c) == Some(i);
            lemma_first_entity_index_at(bp.entities@, c);
            assert(bp.entities@[i].spec_positions().contains(c));
            assert(protected.contains(c));
            let n = choose|n: nat| reached_in(bp, c, n);
            lemma_protected_unreached(bp, protected, n);
        }
    }
    assert(unprotected_set(bp) =~= Set::<Entity>::empty());
}

/// Every cell of a layout without blocking entities is passable.
proof fn lemma_all_passable(bp: Blueprint, q: Position)
    requires
        forall|i: int|
            0 <= i < bp.entities@.len() ==> !(#[trigger] bp.entities@[i]).ty.spec_is_blocking(),
    ensures
        passable(bp, q),
{
    lemma_first_entity_index_at(bp.entities@, q);
}

/// Open layout: with no wall anywhere, every entity of the layout is
/// reported as unsafe.
pub proof fn lemma_open_layout(bp: Blueprint)
    requires
        bp.well_formed(),
        bp.all_supported(),
        bp.no_overlap(),
        forall|i: int|
            0 <= i < bp.entities@.len() ==> !(#[trigger] bp.entities@[i]).ty.spec_is_blocking(),
    ensures
        unprotected_set(bp) == bp.entities@.to_set(),
{
    let n = bp.entities@.len() as int;
    if n == 0 {
        assert forall|e: Entity| !unprotected_set(bp).contains(e) by {
            if unprotected_set(bp).contains(e) {
                let i = choose|i: int| #[trigger] unprotected_index(bp, i) && bp.entities@[i] == e;
            }
        }
        assert(unprotected_set(bp) =~= bp.entities@.to_set());
    } else {
        lemma_extent_exists(bp);
        lemma_cell_bounded(bp);
        let ext = extent(bp);
        assert forall|e: Entity|
            bp.entities@.to_set().contains(e) implies unprotected_set(bp).contains(e) by {
            let i = choose|i: int| 0 <= i < n && bp.entities@[i] == e;
            assert(cell_index_ok(bp, i, 0));
            let c = cell_at(bp, i, 0);
            assert(ext.0 <= c.x <= ext.2 && ext.1 <= c.y <= ext.3);
            let m = c.y - ext.1;
            let path = Seq::new((m + 1) as nat, |k: int| Position { x: c.x, y: (ext.1 + k) as i64 });
            assert(-(COORD_LIMIT as int) - 1 <= ext.1 <= COORD_LIMIT as int + 1) by {
                let (i1, k1) = choose|i2: int, k2: int|
                    cell_index_ok(bp, i2, k2) && (#[trigger] cell_at(bp, i2, k2)).y == ext.1;
            }
            assert forall|k: int| 0 <= k < path.len() implies #[trigger] path[k] == (Position {
                x: c.x,
                y: (ext.1 + k) as i64,
            }) && path[k].y == ext.1 + k && in_box(bp, path[k]) by {
                assert(ext.1 + k <= c.y);
            }
            assert(on_perimeter(bp, path[0]));
            assert forall|k: int| 0 <= k < path.len() - 1 implies passable(bp, #[trigger] path[k])
                && adjacent(path[k], path[k + 1]) by {
                lemma_all_passable(bp, path[k]);
            }
            lemma_path_reached(bp, path);
            assert(path.last() == c);
            assert(reached(bp, c));
            assert(bp.entities@[i].spec_positions().contains(c)) by {
                assert(bp.entities@[i].spec_positions()[0] == c);
            }
            lemma_first_entity_index_at(bp.entities@, c);
            let fo = first_entity_index_at(bp.entities@, c);
            assert(fo is Some);
            let j = fo.unwrap();
            assert(j == i) by {
                if j != i {
                    assert(bp.entities@[j].spec_positions().contains(c));
                }
            }
            assert(unprotected_index(bp, i));
        }
        assert forall|e: Entity|
            unprotected_set(bp).contains(e) implies bp.entities@.to_set().contains(e) by {
            let i = choose|i: int| #[trigger] unprotected_index(bp, i) && bp.entities@[i] == e;
            assert(bp.entities@.contains(e));
        }
        assert(unprotected_set(bp) =~= bp.entities@.to_set());
    }
}

/// Idempotence: what the analysis reports is a function of the layout
/// alone, so two runs over the same unmodified layout yield the same set of
/// entities.
pub proof fn lemma_analysis_deterministic(bp: Blueprint, r1: Seq<Entity>, r2: Seq<Entity>)
    requires
        r1.to_set() == unprotected_set(bp),
        r2.to_set() == unprotected_set(bp),
    ensures
        r1.to_set() == r2.to_set(),
{
}

/// An empty layout has nothing to protect and nothing to report: the
/// analysis owes the empty set, not an error.
pub proof fn lemma_empty_layout(bp: Blueprint)
    requires
        bp.entities@.len() == 0,
    ensures
        unprotected_set(bp) == Set::<Entity>::empty(),
{
    assert forall|e: Entity| !unprotected_set(bp).contains(e) by {
        if unprotected_set(bp).contains(e) {
            let i = choose|i: int| #[trigger] unprotected_index(bp, i) && bp.entities@[i] == e;
        }
    }
    assert(unprotected_set(bp) =~= Set::<Entity>::empty());
}

/// Every footprint cell of a well-formed layout stays within one cell of
/// the coordinate range, and every supported footprint is non-empty.
pub proof fn lemma_cell_bounded(bp: Blueprint)
    requires
        bp.well_formed(),
    ensures
        forall|i: int, k: int|
            cell_index_ok(bp, i, k) ==> {
                let c = #[trigger] cell_at(bp, i, k);
                -(COORD_LIMIT as int) - 1 <= c.x <= COORD_LIMIT as int + 1 && -(COORD_LIMIT as int)
                    - 1 <= c.y <= COORD_LIMIT as int + 1
            },
        forall|i: int|
            0 <= i < bp.entities@.len() && (#[trigger] bp.entities@[i]).ty.spec_has_footprint()
                ==> bp.entities@[i].spec_positions().len() > 0,
{
    assert forall|i: int, k: int| cell_index_ok(bp, i, k) implies {
        let c = cell_at(bp, i, k);
        -(COORD_LIMIT as int) - 1 <= c.x <= COORD_LIMIT as int + 1 && -(COORD_LIMIT as int) - 1
            <= c.y <= COORD_LIMIT as int + 1
    } by {
        let e = bp.entities@[i];
        assert(e.position.bounded());
        if e.ty.spec_is_block() {
            assert(e.spec_positions() == crate::entities::block_cells(e.position));
        }
    }
}

} // verus!

