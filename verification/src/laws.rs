//! What holds of the library as a whole.

use crate::grid::{is_carve_order, open_at, path_between, step_at, walk_between, Grid};
use crate::maze_map::MazeMap;
use crate::movement::{exits, goes_on, is_run, lemma_run_is_run_of, run_of};
use crate::perfect::{lemma_connect, lemma_item_of_rank, lemma_tree_is_perfect, rank};
use crate::point::Point;
use crate::random::{lemma_same_state, SeededRandom};
use crate::solve::{is_shortest_walk, no_walk};
use vstd::prelude::*;

verus! {

/// Generation is determined by the dimensions and the random source: two
/// mazes generated with the same dimensions from random sources in the same
/// state have the same grid, the same start and end, and leave their random
/// sources in the same state.
pub proof fn lemma_generation_determined(
    a: MazeMap,
    b: MazeMap,
    r: int,
    c: int,
    x: SeededRandom,
    y: SeededRandom,
)
    requires
        a.generated_from(r, c, x),
        b.generated_from(r, c, y),
        x.seed@ == y.seed@,
        x.stream == y.stream,
        x.word_pos == y.word_pos,
    ensures
        a.grid() == b.grid(),
        a.st == b.st,
        a.ed == b.ed,
        a.inst_st == b.inst_st,
        a.random == b.random,
{
    lemma_same_state(x, y);
}

/// Two mazes generated with the same dimensions from the same 64-bit seed are
/// the same.
pub proof fn lemma_same_seed_same_maze(a: MazeMap, b: MazeMap, r: int, c: int, seed: u64)
    requires
        a.generated_from(r, c, SeededRandom::seeded(seed)),
        b.generated_from(r, c, SeededRandom::seeded(seed)),
    ensures
        a.grid() == b.grid(),
        a.st == b.st,
        a.ed == b.ed,
        a.random == b.random,
{
}

/// The cell at place `i` of `plan` lies in a corridor: besides the way back
/// there is exactly one way on, and `plan` takes it.
pub open spec fn in_corridor(g: Grid, plan: Seq<Point>, i: int) -> bool {
    exits(g, plan[i], plan[i - 1]) == seq![plan[i + 1]]
}

/// A move runs the whole corridor: every cell of a run between its first and
/// its last lies in a corridor, and the last is the end of the maze, a dead
/// end, or a junction, where two or more ways lead on.
pub proof fn lemma_run_collapses(g: Grid, ed: Point, plan: Seq<Point>)
    requires
        is_run(g, ed, plan),
    ensures
        forall|i: int| 1 <= i < plan.len() - 1 ==> #[trigger] in_corridor(g, plan, i),
        plan.last() == ed || exits(g, plan.last(), plan[plan.len() - 2]).len() == 0 || exits(
            g,
            plan.last(),
            plan[plan.len() - 2],
        ).len() >= 2,
{
    assert forall|i: int| 1 <= i < plan.len() - 1 implies #[trigger] in_corridor(g, plan, i) by {
        assert(goes_on(g, ed, plan, i));
        assert(exits(g, plan[i], plan[i - 1]) =~= seq![plan[i + 1]]);
    }
}

/// A move cannot stop early: a sequence of cells that begins with the step
/// of a move, goes on through corridors and stops as a run must is the run of
/// that move.
pub proof fn lemma_corridor_is_the_run(g: Grid, ed: Point, plan: Seq<Point>)
    requires
        is_run(g, ed, plan),
    ensures
        run_of(g, ed, plan[0], plan[1]) == plan,
{
    lemma_run_is_run_of(g, ed, plan);
}

/// In a maze as generation leaves it, a walk leads from every open cell to
/// the end: the solver succeeds from every open cell.
pub proof fn lemma_end_reachable(m: MazeMap, pos: Point)
    requires
        m.wf(),
        open_at(m.grid(), pos),
    ensures
        !no_walk(m.grid(), pos, m.ed),
{
    let g = m.grid();
    let order = choose|order: Seq<Point>| #[trigger] is_carve_order(g, order);
    assert(order.contains(pos) && order.contains(m.ed));
    lemma_item_of_rank(order, pos);
    lemma_item_of_rank(order, m.ed);
    let w = lemma_connect(g, order, rank(order, pos), rank(order, m.ed));
    assert(walk_between(g, w, pos, m.ed));
}

/// A shortest walk between two open cells visits no cell twice: it is a
/// path.
pub proof fn lemma_shortest_walk_is_path(g: Grid, w: Seq<Point>, a: Point, b: Point)
    requires
        is_shortest_walk(g, w, a, b),
        open_at(g, a),
    ensures
        path_between(g, w, a, b),
{
    if !w.no_duplicates() {
        let (i, j) = choose|i: int, j: int|
            0 <= i < w.len() && 0 <= j < w.len() && i != j && w[i] == w[j];
        let (lo, hi) = if i < j {
            (i, j)
        } else {
            (j, i)
        };
        let v = w.take(lo) + w.skip(hi);
        assert(v.len() == lo + w.len() - hi);
        assert forall|k: int| 0 <= k < v.len() implies v[k] == if k < lo {
            w[k]
        } else {
            w[hi + k - lo]
        } by {}
        assert forall|k: int| 1 <= k < v.len() implies open_at(g, #[trigger] v[k]) by {
            if k < lo {
                assert(v[k] == w[k]);
            } else {
                assert(v[k] == w[hi + k - lo]);
            }
        }
        assert forall|k: int| 0 <= k < v.len() - 1 implies #[trigger] step_at(v, k) by {
            if k < lo - 1 {
                assert(step_at(w, k));
            } else if k == lo - 1 {
                assert(step_at(w, lo - 1));
                assert(v[k + 1] == w[hi]);
            } else {
                assert(step_at(w, hi + k - lo));
            }
        }
        assert(v[0] == a);
        assert(v.last() == b);
        assert(walk_between(g, v, a, b));
        assert(false);
    }
}

/// In a maze as generation leaves it, the walk that the solver gives from an
/// open cell is the one path from that cell to the end.
pub proof fn lemma_solution_is_the_path(m: MazeMap, pos: Point, w: Seq<Point>)
    requires
        m.wf(),
        open_at(m.grid(), pos),
        is_shortest_walk(m.grid(), w, pos, m.ed),
    ensures
        path_between(m.grid(), w, pos, m.ed),
        forall|v: Seq<Point>| #[trigger] path_between(m.grid(), v, pos, m.ed) ==> v == w,
{
    let g = m.grid();
    lemma_shortest_walk_is_path(g, w, pos, m.ed);
    lemma_tree_is_perfect(g);
    assert(open_at(g, pos) && open_at(g, m.ed));
}

} // verus!
