//! The model of carving: one step of the depth-first carve as a function on
//! states, the state that carving ends in, and what holds while it runs.

use crate::grid::{
    all_walls, cell, cols, has_earlier_neighbour, in_grid, is_carve_order, kept,
    lemma_kept_neighbours, lemma_with_cell, one_earlier_neighbour, open_at, reads_before,
    rectangular, rows, with_cell, Grid,
};
use crate::map_value::MapValue;
use crate::point::{lemma_neighbours_adjacent, Point};
use crate::random::{after_shuffle, shuffled, SeededRandom};
use vstd::prelude::*;

verus! {

/// One entry of the carve stack: a cell, the cell it was reached from, and its
/// depth.
pub type Entry = (Point, Point, u64);

/// The state of a carve: the grid, the stack of cells still to be tried, and
/// the random source.
pub struct CarveState {
    pub grid: Grid,
    pub stack: Seq<Entry>,
    pub rng: SeededRandom,
}

/// The test that `candidates` applies to a neighbour.
pub open spec fn is_candidate(g: Grid, lp: Point) -> spec_fn(Point) -> bool {
    |q: Point| in_grid(g, q) && q != lp
}

/// The neighbours of `p` that carving may continue into: those in the grid
/// other than `lp`, the cell that `p` was reached from. In the order up,
/// down, left, right.
pub open spec fn candidates(g: Grid, p: Point, lp: Point) -> Seq<Point> {
    kept(p.neighbours(), 4, is_candidate(g, lp))
}

/// Every cell of `cells` is a wall.
pub open spec fn walls_only(g: Grid, cells: Seq<Point>) -> bool {
    forall|i: int| 0 <= i < cells.len() ==> cell(g, #[trigger] cells[i]) == MapValue::Wall
}

/// `p`, reached from `lp`, may be carved: it has a candidate, and every
/// candidate is still a wall.
pub open spec fn carvable(g: Grid, p: Point, lp: Point) -> bool {
    candidates(g, p, lp).len() > 0 && walls_only(g, candidates(g, p, lp))
}

/// The stack entries for `cells`, each reached from `from` at `depth`.
pub open spec fn pushes(cells: Seq<Point>, from: Point, depth: u64) -> Seq<Entry> {
    Seq::new(cells.len(), |i: int| (cells[i], from, depth))
}

/// The cell that is given as the origin of the first cell: it lies outside
/// every grid.
pub open spec fn nowhere() -> Point {
    Point(-1i32, -1i32)
}

/// The corner where carving begins.
pub open spec fn corner() -> Point {
    Point(0, 0)
}

/// One step of the carve. The top entry leaves the stack. If its cell may be
/// carved, the cell becomes a corridor and its candidates are pushed in
/// shuffled order, one level deeper. With an empty stack nothing changes.
pub open spec fn carve_step(s: CarveState) -> CarveState {
    if s.stack.len() == 0 {
        s
    } else {
        let (p, lp, depth) = s.stack.last();
        let rest = s.stack.drop_last();
        if carvable(s.grid, p, lp) {
            let c = candidates(s.grid, p, lp);
            CarveState {
                grid: with_cell(s.grid, p, MapValue::Road),
                stack: rest + pushes(shuffled(c, 0, s.rng), p, (depth + 1) as u64),
                rng: after_shuffle(c.len() as int, 0, s.rng),
            }
        } else {
            CarveState { grid: s.grid, stack: rest, rng: s.rng }
        }
    }
}

/// The state after `k` steps.
pub open spec fn carve_run(s: CarveState, k: nat) -> CarveState
    decreases k,
{
    if k == 0 {
        s
    } else {
        carve_step(carve_run(s, (k - 1) as nat))
    }
}

/// A grid of `r` rows and `c` columns, all walls, with the corner on the
/// stack.
pub open spec fn carve_start(r: int, c: int, rng: SeededRandom) -> CarveState {
    CarveState { grid: all_walls(r, c), stack: seq![(corner(), nowhere(), 0u64)], rng }
}

/// After `k` steps the stack is empty.
pub open spec fn carve_done(s: CarveState, k: nat) -> bool {
    carve_run(s, k).stack.len() == 0
}

/// The state in which the carve from `s` ends.
pub open spec fn carved(s: CarveState) -> CarveState {
    carve_run(s, choose|k: nat| carve_done(s, k))
}

/// `p` is the first corridor cell when the grid is read row by row.
pub open spec fn is_first_road(g: Grid, p: Point) -> bool {
    &&& in_grid(g, p)
    &&& cell(g, p) == MapValue::Road
    &&& forall|q: Point|
        in_grid(g, q) && reads_before(q, p) ==> #[trigger] cell(g, q) != MapValue::Road
}

/// `p` is the last corridor cell when the grid is read row by row.
pub open spec fn is_last_road(g: Grid, p: Point) -> bool {
    &&& in_grid(g, p)
    &&& cell(g, p) == MapValue::Road
    &&& forall|q: Point|
        in_grid(g, q) && reads_before(p, q) ==> #[trigger] cell(g, q) != MapValue::Road
}

/// The first corridor cell when the grid is read row by row.
pub open spec fn first_road(g: Grid) -> Point {
    choose|p: Point| is_first_road(g, p)
}

/// The last corridor cell when the grid is read row by row.
pub open spec fn last_road(g: Grid) -> Point {
    choose|p: Point| is_last_road(g, p)
}

/// The grid with its first corridor cell marked as the start and its last as
/// the end.
pub open spec fn marked(g: Grid) -> Grid {
    with_cell(with_cell(g, first_road(g), MapValue::St), last_road(g), MapValue::Ed)
}

/// What an entry of the stack satisfies while carving runs.
pub open spec fn entry_ok(g: Grid, order: Seq<Point>, e: Entry) -> bool {
    &&& in_grid(g, e.0)
    &&& e.2 <= order.len()
    &&& order.len() > 0 ==> order.contains(e.1) && e.1.adjacent(e.0)
    &&& open_at(g, e.0) ==> exists|q: Point| #[trigger] open_at(g, q) && q.adjacent(e.0) && q != e.1
}

/// What holds of grid and stack while carving runs, for the order in which
/// the cells were carved so far.
pub open spec fn carving(g: Grid, stack: Seq<Entry>, order: Seq<Point>) -> bool {
    &&& rectangular(g)
    &&& rows(g) >= 2
    &&& cols(g) >= 2
    &&& forall|p: Point|
        in_grid(g, p) ==> #[trigger] cell(g, p) == MapValue::Wall || cell(g, p) == MapValue::Road
    &&& is_carve_order(g, order)
    &&& order.len() > 0 ==> order[0] == corner()
    &&& order.len() == 0 ==> stack.len() == 1 && stack[0] == (corner(), nowhere(), 0u64)
    &&& order.len() == 1 ==> stack.len() >= 1
    &&& forall|i: int| 0 <= i < stack.len() ==> entry_ok(g, order, #[trigger] stack[i])
    &&& forall|i: int, j: int|
        0 <= i < j < stack.len() ==> !((#[trigger] stack[i]).0 == (#[trigger] stack[j]).0
            && stack[i].1 == stack[j].1)
}

/// What the candidates are: exactly the cells of the grid adjacent to `p`
/// other than `lp`, each once.
pub proof fn lemma_candidates(g: Grid, p: Point, lp: Point)
    requires
        p.can_step(),
    ensures
        candidates(g, p, lp).len() <= 4,
        candidates(g, p, lp).no_duplicates(),
        forall|q: Point| #[trigger]
            candidates(g, p, lp).contains(q) <==> p.adjacent(q) && in_grid(g, q) && q != lp,
        forall|i: int|
            0 <= i < candidates(g, p, lp).len() ==> {
                &&& p.adjacent(#[trigger] candidates(g, p, lp)[i])
                &&& in_grid(g, candidates(g, p, lp)[i])
                &&& candidates(g, p, lp)[i] != lp
            },
{
    lemma_kept_neighbours(p, is_candidate(g, lp));
    let c = candidates(g, p, lp);
    assert forall|i: int| 0 <= i < c.len() implies {
        &&& p.adjacent(#[trigger] c[i])
        &&& in_grid(g, c[i])
        &&& c[i] != lp
    } by {
        assert(c.contains(c[i]));
    }
}

/// In a grid of at least two rows and two columns, a cell has a candidate
/// whatever it was reached from.
pub proof fn lemma_has_candidate(g: Grid, p: Point, lp: Point)
    requires
        rectangular(g),
        rows(g) >= 2,
        cols(g) >= 2,
        in_grid(g, p),
    ensures
        candidates(g, p, lp).len() > 0,
{
    lemma_candidates(g, p, lp);
    let c = candidates(g, p, lp);
    let a = if p.0 > 0 {
        p.up()
    } else {
        p.down()
    };
    let b = if p.1 > 0 {
        p.left()
    } else {
        p.right()
    };
    assert(p.adjacent(a) && in_grid(g, a));
    assert(p.adjacent(b) && in_grid(g, b));
    assert(a != b);
    if a != lp {
        assert(c.contains(a));
    } else {
        assert(c.contains(b));
    }
}

/// Once the stack is empty, further steps change nothing.
pub proof fn lemma_run_settles(s: CarveState, k: nat, more: nat)
    requires
        carve_done(s, k),
    ensures
        carve_run(s, k + more) == carve_run(s, k),
    decreases more,
{
    if more > 0 {
        lemma_run_settles(s, k, (more - 1) as nat);
        assert(carve_run(s, k + more) == carve_step(carve_run(s, (k + more - 1) as nat)));
    }
}

/// A carve that has emptied its stack after `k` steps has reached the state
/// in which the carve ends.
pub proof fn lemma_run_ends(s: CarveState, k: nat)
    requires
        carve_done(s, k),
    ensures
        carved(s) == carve_run(s, k),
{
    let j = choose|j: nat| carve_done(s, j);
    assert(carve_done(s, j));
    if j <= k {
        lemma_run_settles(s, j, (k - j) as nat);
    } else {
        lemma_run_settles(s, k, (j - k) as nat);
    }
}

/// A step that does not carve keeps what holds while carving runs.
pub proof fn lemma_skip_keeps(g: Grid, stack: Seq<Entry>, order: Seq<Point>)
    requires
        carving(g, stack, order),
        stack.len() > 0,
        !carvable(g, stack.last().0, stack.last().1),
    ensures
        carving(g, stack.drop_last(), order),
        order.len() >= 2,
{
    let (p, lp, depth) = stack.last();
    let rest = stack.drop_last();
    assert(entry_ok(g, order, stack[stack.len() - 1]));
    lemma_has_candidate(g, p, lp);
    lemma_candidates(g, p, lp);
    let c = candidates(g, p, lp);
    if order.len() <= 1 {
        // The only open cell, if any, is the one that `p` was reached from.
        assert forall|i: int| 0 <= i < c.len() implies cell(g, #[trigger] c[i])
            == MapValue::Wall by {
            if open_at(g, c[i]) {
                assert(order.contains(c[i]));
                assert(order.contains(lp));
                let a = choose|a: int| 0 <= a < order.len() && order[a] == c[i];
                let b = choose|b: int| 0 <= b < order.len() && order[b] == lp;
                assert(false);
            }
        }
        assert(false);
    }
    assert forall|i: int| 0 <= i < rest.len() implies entry_ok(g, order, #[trigger] rest[i]) by {
        assert(rest[i] == stack[i]);
    }
    assert forall|i: int, j: int| 0 <= i < j < rest.len() implies !((#[trigger] rest[i]).0 == (
    #[trigger] rest[j]).0 && rest[i].1 == rest[j].1) by {
        assert(rest[i] == stack[i] && rest[j] == stack[j]);
    }
}

/// A cell that may be carved is still a wall.
pub proof fn lemma_carvable_is_wall(g: Grid, stack: Seq<Entry>, order: Seq<Point>)
    requires
        carving(g, stack, order),
        stack.len() > 0,
        carvable(g, stack.last().0, stack.last().1),
    ensures
        cell(g, stack.last().0) == MapValue::Wall,
        !order.contains(stack.last().0),
{
    let (p, lp, depth) = stack.last();
    assert(entry_ok(g, order, stack[stack.len() - 1]));
    lemma_candidates(g, p, lp);
    let c = candidates(g, p, lp);
    if open_at(g, p) {
        let q = choose|q: Point| #[trigger] open_at(g, q) && q.adjacent(p) && q != lp;
        lemma_neighbours_adjacent(p, q);
        assert(c.contains(q));
        let i = choose|i: int| 0 <= i < c.len() && c[i] == q;
        assert(cell(g, c[i]) == MapValue::Wall);
        assert(false);
    }
}

/// A step that carves keeps what holds while carving runs: the cell joins the
/// order, and whatever permutation of its candidates is pushed.
pub proof fn lemma_carve_keeps(g: Grid, stack: Seq<Entry>, order: Seq<Point>, perm: Seq<Point>)
    requires
        carving(g, stack, order),
        stack.len() > 0,
        carvable(g, stack.last().0, stack.last().1),
        perm.len() == candidates(g, stack.last().0, stack.last().1).len(),
        perm.no_duplicates(),
        forall|i: int|
            0 <= i < perm.len() ==> candidates(g, stack.last().0, stack.last().1).contains(
                #[trigger] perm[i],
            ),
        stack.last().2 < u64::MAX,
    ensures
        carving(
            with_cell(g, stack.last().0, MapValue::Road),
            stack.drop_last() + pushes(perm, stack.last().0, (stack.last().2 + 1) as u64),
            order.push(stack.last().0),
        ),
{
    let (p, lp, depth) = stack.last();
    let rest = stack.drop_last();
    let c = candidates(g, p, lp);
    let g2 = with_cell(g, p, MapValue::Road);
    let order2 = order.push(p);
    let added = pushes(perm, p, (depth + 1) as u64);
    let stack2 = rest + added;
    assert(entry_ok(g, order, stack[stack.len() - 1]));
    lemma_carvable_is_wall(g, stack, order);
    lemma_candidates(g, p, lp);
    lemma_with_cell(g, p, MapValue::Road);

    assert forall|q: Point| open_at(g2, q) <==> open_at(g, q) || q == p by {
        if q != p && in_grid(g, q) {
            assert(cell(g2, q) == cell(g, q));
        }
    }
    // The order.
    assert(order2.no_duplicates()) by {
        assert forall|i: int, j: int|
            0 <= i < order2.len() && 0 <= j < order2.len() && i != j implies order2[i]
            != order2[j] by {
            if i < order.len() {
                assert(order.contains(order[i]));
            }
            if j < order.len() {
                assert(order.contains(order[j]));
            }
        }
    }
    assert forall|q: Point| open_at(g2, q) <==> #[trigger] order2.contains(q) by {
        if order2.contains(q) {
            let i = choose|i: int| 0 <= i < order2.len() && order2[i] == q;
            if i < order.len() {
                assert(order.contains(order[i]));
            }
        }
        if open_at(g2, q) {
            if q == p {
                assert(order2[order.len() as int] == p);
            } else {
                assert(order.contains(q));
                let i = choose|i: int| 0 <= i < order.len() && order[i] == q;
                assert(order2[i] == q);
            }
        }
    }
    assert forall|i: int| 0 < i < order2.len() implies #[trigger] has_earlier_neighbour(
        order2,
        i,
    ) by {
        if i < order.len() {
            assert(has_earlier_neighbour(order, i));
            let j = choose|j: int| 0 <= j < i && (#[trigger] order[j]).adjacent(order[i]);
            assert(order2[j].adjacent(order2[i]));
        } else {
            assert(order.contains(lp));
            let j = choose|j: int| 0 <= j < order.len() && order[j] == lp;
            assert(order2[j].adjacent(order2[i]));
        }
    }
    assert forall|i: int| 0 <= i < order2.len() implies #[trigger] one_earlier_neighbour(
        order2,
        i,
    ) by {
        if i < order.len() {
            assert(one_earlier_neighbour(order, i));
            assert forall|j: int, k: int|
                0 <= j < i && 0 <= k < i && (#[trigger] order2[j]).adjacent(order2[i]) && (
                #[trigger] order2[k]).adjacent(order2[i]) implies j == k by {
                assert(order[j].adjacent(order[i]) && order[k].adjacent(order[i]));
            }
        } else {
            assert forall|j: int, k: int|
                0 <= j < i && 0 <= k < i && (#[trigger] order2[j]).adjacent(order2[i]) && (
                #[trigger] order2[k]).adjacent(order2[i]) implies j == k by {
                // Both are open neighbours of `p`; every candidate is a wall, so
                // both are the cell that `p` was reached from.
                assert(order.contains(order[j]) && order.contains(order[k]));
                lemma_neighbours_adjacent(p, order[j]);
                lemma_neighbours_adjacent(p, order[k]);
                if order[j] != lp {
                    assert(c.contains(order[j]));
                    let a = choose|a: int| 0 <= a < c.len() && c[a] == order[j];
                    assert(cell(g, c[a]) == MapValue::Wall);
                }
                if order[k] != lp {
                    assert(c.contains(order[k]));
                    let a = choose|a: int| 0 <= a < c.len() && c[a] == order[k];
                    assert(cell(g, c[a]) == MapValue::Wall);
                }
            }
        }
    }
    assert(is_carve_order(g2, order2));
    assert(order2[0] == corner()) by {
        if order.len() == 0 {
            assert(stack[0] == stack.last());
        }
    }
    // The stack.
    assert forall|i: int| 0 <= i < stack2.len() implies entry_ok(g2, order2, #[trigger] stack2[i]) by {
        let e = stack2[i];
        if i < rest.len() {
            assert(e == stack[i]);
            assert(entry_ok(g, order, stack[i]));
            assert(order.len() > 0);
            assert(order.contains(e.1));
            let a = choose|a: int| 0 <= a < order.len() && order[a] == e.1;
            assert(order2[a] == e.1);
            if open_at(g2, e.0) {
                if e.0 == p {
                    assert(order.contains(lp));
                    assert(open_at(g2, lp) && lp.adjacent(e.0) && lp != e.1);
                } else {
                    let q = choose|q: Point| #[trigger]
                        open_at(g, q) && q.adjacent(e.0) && q != e.1;
                    assert(open_at(g2, q) && q.adjacent(e.0) && q != e.1);
                }
            }
        } else {
            let w = perm[i - rest.len()];
            assert(e == added[i - rest.len()]);
            assert(e == (w, p, (depth + 1) as u64));
            assert(c.contains(w));
            let a = choose|a: int| 0 <= a < c.len() && c[a] == w;
            assert(cell(g, c[a]) == MapValue::Wall);
            assert(order2[order.len() as int] == p);
            assert(w != p);
            assert(cell(g2, w) == MapValue::Wall);
        }
    }
    assert forall|i: int, j: int| 0 <= i < j < stack2.len() implies !((#[trigger] stack2[i]).0 == (
    #[trigger] stack2[j]).0 && stack2[i].1 == stack2[j].1) by {
        if j < rest.len() {
            assert(stack2[i] == stack[i] && stack2[j] == stack[j]);
        } else if i < rest.len() {
            assert(stack2[i] == stack[i]);
            assert(entry_ok(g, order, stack[i]));
            assert(stack2[j] == added[j - rest.len()]);
            assert(order.len() > 0);
        } else {
            assert(stack2[i] == added[i - rest.len()]);
            assert(stack2[j] == added[j - rest.len()]);
        }
    }
    assert(order.len() == 0 ==> rest.len() == 0);
    assert forall|q: Point|
        in_grid(g2, q) implies #[trigger] cell(g2, q) == MapValue::Wall || cell(g2, q)
        == MapValue::Road by {
        if q != p {
            assert(cell(g2, q) == cell(g, q));
        }
    }
}

/// The grid that carving starts from satisfies, with its stack and the empty
/// order, what holds while carving runs.
pub proof fn lemma_carving_starts(g: Grid)
    requires
        rectangular(g),
        rows(g) >= 2,
        cols(g) >= 2,
        forall|p: Point| in_grid(g, p) ==> #[trigger] cell(g, p) == MapValue::Wall,
    ensures
        carving(g, seq![(corner(), nowhere(), 0u64)], Seq::<Point>::empty()),
{
    let stack = seq![(corner(), nowhere(), 0u64)];
    let order = Seq::<Point>::empty();
    assert(stack[0] == (corner(), nowhere(), 0u64));
    assert(entry_ok(g, order, stack[0]));
}

/// The candidates depend on the shape of the grid only.
pub proof fn lemma_candidates_by_shape(g: Grid, h: Grid, p: Point, lp: Point)
    requires
        rows(g) == rows(h),
        cols(g) == cols(h),
    ensures
        candidates(g, p, lp) == candidates(h, p, lp),
{
    reveal_with_fuel(kept, 5);
    let n = p.neighbours();
    assert(kept(n, 1, is_candidate(g, lp)) == kept(n, 1, is_candidate(h, lp)));
    assert(kept(n, 2, is_candidate(g, lp)) == kept(n, 2, is_candidate(h, lp)));
    assert(kept(n, 3, is_candidate(g, lp)) == kept(n, 3, is_candidate(h, lp)));
}

/// Of two different cells, one is read before the other.
pub proof fn lemma_reads_total(a: Point, b: Point)
    ensures
        a == b || reads_before(a, b) || reads_before(b, a),
{
}

/// A grid has at most one first corridor cell and at most one last.
pub proof fn lemma_ends_unique(g: Grid, a: Point, b: Point)
    ensures
        is_first_road(g, a) && is_first_road(g, b) ==> a == b,
        is_last_road(g, a) && is_last_road(g, b) ==> a == b,
        is_first_road(g, a) ==> first_road(g) == a,
        is_last_road(g, a) ==> last_road(g) == a,
{
    lemma_reads_total(a, b);
    if is_first_road(g, a) {
        let f = first_road(g);
        lemma_reads_total(a, f);
        assert(is_first_road(g, f));
    }
    if is_last_road(g, a) {
        let l = last_road(g);
        lemma_reads_total(a, l);
        assert(is_last_road(g, l));
    }
}

/// Marking two corridor cells keeps the open cells, and with them every carve
/// order.
pub proof fn lemma_marks_keep_order(g: Grid, st: Point, ed: Point, order: Seq<Point>)
    requires
        rectangular(g),
        is_carve_order(g, order),
        open_at(g, st),
        open_at(g, ed),
    ensures
        is_carve_order(
            with_cell(with_cell(g, st, MapValue::St), ed, MapValue::Ed),
            order,
        ),
        forall|q: Point|
            open_at(with_cell(with_cell(g, st, MapValue::St), ed, MapValue::Ed), q) <==> open_at(
                g,
                q,
            ),
{
    let g1 = with_cell(g, st, MapValue::St);
    let g2 = with_cell(g1, ed, MapValue::Ed);
    lemma_with_cell(g, st, MapValue::St);
    lemma_with_cell(g1, ed, MapValue::Ed);
    assert forall|q: Point| open_at(g2, q) <==> open_at(g, q) by {
        if in_grid(g, q) {
            if q != ed {
                assert(cell(g2, q) == cell(g1, q));
                if q != st {
                    assert(cell(g1, q) == cell(g, q));
                }
            }
        }
    }
    assert forall|q: Point| open_at(g2, q) <==> #[trigger] order.contains(q) by {
        assert(open_at(g2, q) <==> open_at(g, q));
    }
}

} // verus!
