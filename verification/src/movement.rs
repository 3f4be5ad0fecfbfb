//! The movement rule: one directional move slides through a corridor until a
//! dead end, a junction or the end of the maze.

use crate::errors::{MazeError, MazeResult};
use crate::grid::{
    cell, in_grid, is_carve_order, is_tree, kept, lemma_kept_grows, lemma_kept_neighbours,
    one_earlier_neighbour, open_at, rectangular, Grid,
};
use crate::map_value::MapValue;
use crate::maze_map::MazeMap;
use crate::move_status::MoveStatus;
use crate::point::Point;
use vstd::prelude::*;

verus! {

/// The test for a way on: a cell of the grid that is no wall, other than
/// `lp`, the cell just come from.
pub open spec fn is_exit(g: Grid, lp: Point) -> spec_fn(Point) -> bool {
    |q: Point| in_grid(g, q) && q != lp && cell(g, q) != MapValue::Wall
}

/// The ways on from `p` for one who came from `lp`, in the order up, down,
/// left, right.
pub open spec fn exits(g: Grid, p: Point, lp: Point) -> Seq<Point> {
    kept(p.neighbours(), 4, is_exit(g, lp))
}

/// The cell a corridor goes on to from `p` for one who came from `lp`: the
/// only way on, if there is exactly one. None at a dead end and at a
/// junction.
pub open spec fn continuation(g: Grid, p: Point, lp: Point) -> Option<Point> {
    if exits(g, p, lp).len() == 1 {
        Some(exits(g, p, lp)[0])
    } else {
        None
    }
}

/// `plan` is the run of one move: it has at least two cells; from each cell
/// after the first and before the last the corridor goes on to the next, and
/// that cell is not the end; at the last cell the run stops, because the cell
/// is the end or because no corridor goes on.
pub open spec fn is_run(g: Grid, ed: Point, plan: Seq<Point>) -> bool {
    &&& plan.len() >= 2
    &&& forall|i: int| 1 <= i < plan.len() - 1 ==> #[trigger] goes_on(g, ed, plan, i)
    &&& plan.last() == ed || continuation(g, plan.last(), plan[plan.len() - 2]) is None
}

/// The cell at place `i` of `plan` is not the end, and the corridor goes on
/// from it to the next cell of `plan`.
pub open spec fn goes_on(g: Grid, ed: Point, plan: Seq<Point>, i: int) -> bool {
    plan[i] != ed && continuation(g, plan[i], plan[i - 1]) == Some(plan[i + 1])
}

/// `plan` is the run of the move that begins with the step from `a` to `b`.
pub open spec fn is_run_from(g: Grid, ed: Point, plan: Seq<Point>, a: Point, b: Point) -> bool {
    is_run(g, ed, plan) && plan[0] == a && plan[1] == b
}

/// The run of the move that begins with the step from `a` to `b`.
pub open spec fn run_of(g: Grid, ed: Point, a: Point, b: Point) -> Seq<Point> {
    choose|plan: Seq<Point>| is_run_from(g, ed, plan, a, b)
}

/// `order` lists the open cells of `g`, each once, so that every cell has at
/// most one neighbour among the cells listed before it.
pub open spec fn is_forest_order(g: Grid, order: Seq<Point>) -> bool {
    &&& order.no_duplicates()
    &&& forall|p: Point| open_at(g, p) <==> #[trigger] order.contains(p)
    &&& forall|i: int| 0 <= i < order.len() ==> #[trigger] one_earlier_neighbour(order, i)
}

/// The open cells of `g` hold no cycle.
pub open spec fn is_forest(g: Grid) -> bool {
    exists|order: Seq<Point>| #[trigger] is_forest_order(g, order)
}

/// How far a run that came from `lp` to `p` can still go, at most. Going away
/// from the cells listed earlier it counts the cells listed after `p`;
/// otherwise it counts the cells listed before `p` too.
pub open spec fn reach(order: Seq<Point>, lp: Point, p: Point) -> int {
    if order.contains(lp) && order.index_of(lp) < order.index_of(p) {
        order.len() - order.index_of(p)
    } else {
        order.len() + 1 + order.index_of(p)
    }
}

/// A tree is a forest.
pub proof fn lemma_tree_is_forest(g: Grid)
    requires
        is_tree(g),
    ensures
        is_forest(g),
{
    let order = choose|order: Seq<Point>| #[trigger] is_carve_order(g, order);
    assert(is_forest_order(g, order));
}

/// What the ways on are: exactly the open cells adjacent to `p` other than
/// `lp`, each once.
pub proof fn lemma_exits(g: Grid, p: Point, lp: Point)
    requires
        p.can_step(),
    ensures
        exits(g, p, lp).len() <= 4,
        exits(g, p, lp).no_duplicates(),
        forall|q: Point| #[trigger]
            exits(g, p, lp).contains(q) <==> p.adjacent(q) && open_at(g, q) && q != lp,
        forall|i: int|
            0 <= i < exits(g, p, lp).len() ==> {
                &&& p.adjacent(#[trigger] exits(g, p, lp)[i])
                &&& open_at(g, exits(g, p, lp)[i])
                &&& exits(g, p, lp)[i] != lp
            },
{
    lemma_kept_neighbours(p, is_exit(g, lp));
    let c = exits(g, p, lp);
    assert forall|i: int| 0 <= i < c.len() implies {
        &&& p.adjacent(#[trigger] c[i])
        &&& open_at(g, c[i])
        &&& c[i] != lp
    } by {
        assert(c.contains(c[i]));
    }
}

/// In a forest, a step along a corridor shortens how far the run can still
/// go.
pub proof fn lemma_reach_falls(g: Grid, order: Seq<Point>, lp: Point, p: Point, q: Point)
    requires
        is_forest_order(g, order),
        p.can_step(),
        open_at(g, p),
        lp.adjacent(p),
        continuation(g, p, lp) == Some(q),
    ensures
        open_at(g, q),
        p.adjacent(q),
        0 < reach(order, p, q) < reach(order, lp, p),
{
    lemma_exits(g, p, lp);
    let e = exits(g, p, lp);
    assert(e.contains(e[0]));
    assert(order.contains(p) && order.contains(q));
    let i = order.index_of(p);
    let k = order.index_of(q);
    order.index_of_first_ensures(p);
    order.index_of_first_ensures(q);
    assert(order[i] == p && order[k] == q);
    assert(i != k);
    if order.contains(lp) && order.index_of(lp) < i {
        let j = order.index_of(lp);
        order.index_of_first_ensures(lp);
        assert(order[j] == lp);
        if k < i {
            assert(one_earlier_neighbour(order, i));
            assert(order[j].adjacent(order[i]) && order[k].adjacent(order[i]));
            assert(j == k);
            assert(false);
        }
    }
}

/// Two runs that begin with the same step are the same run.
pub proof fn lemma_run_unique(g: Grid, ed: Point, v: Seq<Point>, w: Seq<Point>)
    requires
        is_run(g, ed, v),
        is_run(g, ed, w),
        v[0] == w[0],
        v[1] == w[1],
    ensures
        v == w,
{
    let n = if v.len() <= w.len() {
        v.len() as int
    } else {
        w.len() as int
    };
    lemma_runs_agree(g, ed, v, w, n - 1);
    if v.len() < w.len() {
        let i = v.len() - 1;
        assert(goes_on(g, ed, w, i));
        assert(v[i] == w[i] && v[i - 1] == w[i - 1]);
        assert(false);
    }
    if w.len() < v.len() {
        let i = w.len() - 1;
        assert(goes_on(g, ed, v, i));
        assert(v[i] == w[i] && v[i - 1] == w[i - 1]);
        assert(false);
    }
    assert(v =~= w) by {
        assert forall|i: int| 0 <= i < v.len() implies v[i] == w[i] by {
            lemma_runs_agree(g, ed, v, w, i);
        }
    }
}

/// Two runs that begin with the same step agree as far as both go.
pub proof fn lemma_runs_agree(g: Grid, ed: Point, v: Seq<Point>, w: Seq<Point>, k: int)
    requires
        is_run(g, ed, v),
        is_run(g, ed, w),
        v[0] == w[0],
        v[1] == w[1],
        0 <= k < v.len(),
        k < w.len(),
    ensures
        forall|i: int| 0 <= i <= k ==> v[i] == w[i],
    decreases k,
{
    if k >= 2 {
        lemma_runs_agree(g, ed, v, w, k - 1);
        let i = k - 1;
        assert(goes_on(g, ed, v, i));
        assert(goes_on(g, ed, w, i));
        assert(v[i] == w[i] && v[i - 1] == w[i - 1]);
    } else if k == 1 {
        lemma_runs_agree(g, ed, v, w, 0);
    }
}

/// The run of a move is the run that begins with its first step.
pub proof fn lemma_run_is_run_of(g: Grid, ed: Point, plan: Seq<Point>)
    requires
        is_run(g, ed, plan),
    ensures
        run_of(g, ed, plan[0], plan[1]) == plan,
{
    let r = run_of(g, ed, plan[0], plan[1]);
    assert(is_run_from(g, ed, plan, plan[0], plan[1]));
    assert(is_run_from(g, ed, r, plan[0], plan[1]));
    lemma_run_unique(g, ed, r, plan);
}

/// The cell at place `i` of a run that begins on an open cell is open, and
/// adjacent to the one before.
pub proof fn lemma_run_cell_open(g: Grid, ed: Point, plan: Seq<Point>, i: int)
    requires
        rectangular(g),
        is_run(g, ed, plan),
        open_at(g, plan[1]),
        plan[0].adjacent(plan[1]),
        1 <= i < plan.len(),
    ensures
        open_at(g, plan[i]),
        plan[i - 1].adjacent(plan[i]),
    decreases i,
{
    if i > 1 {
        lemma_run_cell_open(g, ed, plan, i - 1);
        let p = plan[i - 1];
        let lp = plan[i - 2];
        assert(goes_on(g, ed, plan, i - 1));
        lemma_exits(g, p, lp);
        assert(exits(g, p, lp).contains(exits(g, p, lp)[0]));
    }
}

impl MazeMap {
    /// The open cells hold no cycle, in a rectangular grid.
    pub open spec fn walkable(&self) -> bool {
        self.shaped() && is_forest(self.grid())
    }

    /// The cell a corridor goes on to from `p` for one who came from `lp`:
    /// the only neighbour of `p` in the grid that is no wall, other than `lp`.
    /// None if there is no such neighbour, or more than one.
    pub fn find_road(&self, p: Point, lp: Point) -> (res: Option<Point>)
        requires
            self.shaped(),
            p.can_step(),
        ensures
            res == continuation(self.grid(), p, lp),
    {
        let mut res: Option<Point> = None;
        let around = p.get_range_vec();
        let ghost keep = is_exit(self.grid(), lp);
        let mut i: usize = 0;
        while i < around.len()
            invariant
                i <= around@.len(),
                around@ == p.neighbours(),
                self.shaped(),
                keep == is_exit(self.grid(), lp),
                kept(around@, i as int, keep).len() <= 1,
                res is None <==> kept(around@, i as int, keep).len() == 0,
                res matches Some(q) ==> kept(around@, i as int, keep)[0] == q,
            decreases around@.len() - i,
        {
            let near = around[i];
            i += 1;
            if self.is_overrange(near) {
                continue ;
            }
            if near == lp {
                continue ;
            }
            if self.cell_at(near) == MapValue::Wall {
                continue ;
            }
            if res.is_some() {
                proof {
                    lemma_kept_grows(around@, i as int, 4, keep);
                }
                return None;
            }
            res = Some(near);
        }
        res
    }

    /// The cells that one move in direction `mv` passes, beginning with
    /// `from`.
    ///
    /// Fails with `GameWin` if `from` is the end, and with `CanNotMove` if the
    /// next cell in that direction lies outside the grid or is a wall.
    /// Otherwise the run goes on from that cell for as long as exactly one way
    /// leads on, and stops at the end of the maze.
    pub fn plan_move(&self, from: Point, mv: MoveStatus) -> (res: MazeResult<Vec<Point>>)
        requires
            self.walkable(),
            mv.fits(from),
        ensures
            match res {
                Ok(plan) => {
                    &&& from != self.ed
                    &&& open_at(self.grid(), mv.next(from))
                    &&& is_run_from(self.grid(), self.ed, plan@, from, mv.next(from))
                    &&& plan@ == run_of(self.grid(), self.ed, from, mv.next(from))
                },
                Err(e) => if from == self.ed {
                    e is GameWin
                } else {
                    e is CanNotMove && !open_at(self.grid(), mv.next(from))
                },
            },
    {
        if from == self.ed {
            return Err(MazeError::GameWin);
        }
        let mut lp = from;
        let mut p = mv.get_next(lp);
        if self.is_overrange(p) {
            return Err(MazeError::CanNotMove);
        }
        if self.cell_at(p) == MapValue::Wall {
            return Err(MazeError::CanNotMove);
        }
        let ghost g = self.grid();
        let ghost order = choose|order: Seq<Point>| #[trigger] is_forest_order(g, order);
        let mut move_list: Vec<Point> = Vec::new();
        move_list.push(lp);
        move_list.push(p);
        let mut next_road_raw = self.find_road(p, lp);
        proof {
            assert(order.contains(p));
            order.index_of_first_ensures(p);
        }
        loop
            invariant
                self.shaped(),
                g == self.grid(),
                is_forest_order(g, order),
                move_list@.len() >= 2,
                move_list@[0] == from,
                move_list@[1] == mv.next(from),
                move_list@.last() == p,
                move_list@[move_list@.len() - 2] == lp,
                open_at(g, p),
                lp.adjacent(p),
                next_road_raw == continuation(g, p, lp),
                forall|i: int|
                    1 <= i < move_list@.len() - 1 ==> #[trigger] goes_on(
                        g,
                        self.ed,
                        move_list@,
                        i,
                    ),
                reach(order, lp, p) > 0,
            ensures
                is_run(g, self.ed, move_list@),
                move_list@[0] == from,
                move_list@[1] == mv.next(from),
            decreases reach(order, lp, p),
        {
            let next_road = match next_road_raw {
                Some(q) => q,
                None => {
                    break ;
                },
            };
            if p == self.ed {
                break ;
            }
            proof {
                lemma_reach_falls(g, order, lp, p, next_road);
            }
            let ghost before = move_list@;
            lp = p;
            p = next_road;
            move_list.push(p);
            next_road_raw = self.find_road(p, lp);
            proof {
                assert forall|i: int| 1 <= i < move_list@.len() - 1 implies #[trigger] goes_on(
                    g,
                    self.ed,
                    move_list@,
                    i,
                ) by {
                    if i < before.len() - 1 {
                        assert(goes_on(g, self.ed, before, i));
                        assert(move_list@[i] == before[i]);
                        assert(move_list@[i - 1] == before[i - 1]);
                        assert(move_list@[i + 1] == before[i + 1]);
                    }
                }
            }
        }
        proof {
            lemma_run_is_run_of(g, self.ed, move_list@);
        }
        Ok(move_list)
    }
}

} // verus!
