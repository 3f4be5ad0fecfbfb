//! The solver: a breadth-first search for a shortest walk to the end.

use crate::errors::{MazeError, MazeResult};
use crate::grid::{
    cols, in_grid, is_walk, kept, lemma_cells_bounded, open_at, rectangular, rows, step_at,
    walk_between, Grid,
};
use crate::map_value::MapValue;
use crate::maze_map::MazeMap;
use crate::point::Point;
use crate::search::{
    dist_least, is_road, lemma_search_exhausted, lemma_search_records, lemma_search_skips,
    lemma_search_starts, lemma_with_mark, mark_ok, marks_sound, no_marks, reached, roads,
    same_shape, searching, visit_ok, visits, walk_from, with_mark, Marks,
};
use std::collections::VecDeque;
use vstd::prelude::*;

verus! {

/// The rows of marks as marks.
pub open spec fn marks_of(map_temp: Vec<Vec<Option<Point>>>) -> Marks {
    Seq::new(map_temp@.len(), |i: int| map_temp@[i]@)
}

/// `path` is a walk from `a` to `b`, and no walk from `a` to `b` is shorter.
pub open spec fn is_shortest_walk(g: Grid, path: Seq<Point>, a: Point, b: Point) -> bool {
    &&& walk_between(g, path, a, b)
    &&& forall|w: Seq<Point>| #[trigger] walk_between(g, w, a, b) ==> path.len() <= w.len()
}

/// On the way back from the end, the cell at place `i` is open and was
/// reached from the cell at the next place, which is adjacent to it.
pub open spec fn back_step(g: Grid, rev: Seq<Point>, i: int) -> bool {
    rev[i + 1].adjacent(rev[i]) && open_at(g, rev[i])
}

/// No walk leads from `a` to `b`.
pub open spec fn no_walk(g: Grid, a: Point, b: Point) -> bool {
    forall|w: Seq<Point>| !#[trigger] walk_between(g, w, a, b)
}

impl MazeMap {
    /// Marks for `row` rows and `column` columns, with nothing recorded.
    fn blank_marks(row: usize, column: usize) -> (map_temp: Vec<Vec<Option<Point>>>)
        ensures
            marks_of(map_temp) == Seq::new(
                row as nat,
                |i: int| Seq::new(column as nat, |j: int| None::<Point>),
            ),
    {
        let mut map_temp: Vec<Vec<Option<Point>>> = Vec::new();
        let mut i: usize = 0;
        while i < row
            invariant
                i <= row,
                map_temp@.len() == i,
                forall|k: int|
                    0 <= k < i ==> (#[trigger] map_temp@[k])@ == Seq::new(
                        column as nat,
                        |j: int| None::<Point>,
                    ),
            decreases row - i,
        {
            let mut line: Vec<Option<Point>> = Vec::new();
            let mut j: usize = 0;
            while j < column
                invariant
                    j <= column,
                    line@.len() == j,
                    forall|k: int| 0 <= k < j ==> #[trigger] line@[k] == None::<Point>,
                decreases column - j,
            {
                line.push(None);
                j += 1;
            }
            assert(line@ =~= Seq::new(column as nat, |j: int| None::<Point>));
            map_temp.push(line);
            i += 1;
        }
        assert(marks_of(map_temp) =~= Seq::new(
            row as nat,
            |i: int| Seq::new(column as nat, |j: int| None::<Point>),
        ));
        map_temp
    }

    /// The neighbours of `p` that the search goes on to: in the grid, not yet
    /// reached, and no wall.
    fn solve_get_roads(&self, map_temp: &Vec<Vec<Option<Point>>>, p: Point) -> (result: Vec<
        Point,
    >)
        requires
            self.shaped(),
            same_shape(self.grid(), marks_of(*map_temp)),
            in_grid(self.grid(), p),
        ensures
            result@ == roads(self.grid(), marks_of(*map_temp), p),
    {
        let mut result: Vec<Point> = Vec::new();
        let around = p.get_range_vec();
        let ghost keep = is_road(self.grid(), marks_of(*map_temp));
        let mut i: usize = 0;
        while i < around.len()
            invariant
                i <= around@.len(),
                around@ == p.neighbours(),
                self.shaped(),
                same_shape(self.grid(), marks_of(*map_temp)),
                keep == is_road(self.grid(), marks_of(*map_temp)),
                result@ == kept(around@, i as int, keep),
            decreases around@.len() - i,
        {
            let near = around[i];
            i += 1;
            if self.is_overrange(near) {
                continue ;
            }
            assert(marks_of(*map_temp)[near.0 as int].len() == self.grid()[0].len());
            if map_temp[near.0 as usize][near.1 as usize].is_some() {
                continue ;
            }
            if self.cell_at(near) == MapValue::Wall {
                continue ;
            }
            result.push(near);
        }
        result
    }

    /// A shortest walk from `pos` to the end.
    ///
    /// The walk begins at `pos`, which may be any cell of the grid; every
    /// further cell is no wall. Fails with `QueueEmpty` if no walk leads from
    /// `pos` to the end. From the end itself the walk is that one cell.
    pub fn solve(&self, pos: Point) -> (res: MazeResult<Vec<Point>>)
        requires
            self.shaped(),
        ensures
            match res {
                Ok(path) => if pos == self.ed {
                    path@ == seq![pos]
                } else {
                    is_shortest_walk(self.grid(), path@, pos, self.ed)
                },
                Err(e) => e is QueueEmpty && pos != self.ed && no_walk(
                    self.grid(),
                    pos,
                    self.ed,
                ),
            },
    {
        if pos == self.ed {
            let mut only: Vec<Point> = Vec::new();
            only.push(pos);
            assert(only@ =~= seq![pos]);
            return Ok(only);
        }
        if self.is_overrange(pos) {
            return Err(MazeError::QueueEmpty);
        }
        let ghost g = self.grid();
        let ghost cells = rows(g) * cols(g);
        let mut queue: VecDeque<(Point, Option<Point>, u64)> = VecDeque::new();
        let mut map_temp = Self::blank_marks(self.row(), self.column());
        let mut p = pos;
        let mut lp: Option<Point> = None;
        let mut step: u64 = 0;
        queue.push_back((p, lp, step));
        let ghost mut dist = Map::<Point, int>::empty();
        let ghost mut seen = Seq::<Point>::empty();
        proof {
            lemma_search_starts(g, pos);
            assert(marks_of(map_temp) =~= no_marks(g));
            assert(queue@ =~= seq![(pos, None::<Point>, 0u64)]);
            assert(0 <= cells <= 0x7fff_ffff * 0x7fff_ffff) by (nonlinear_arith)
                requires
                    cells == rows(g) * cols(g),
                    0 <= rows(g) <= 0x7fff_ffff,
                    0 <= cols(g) <= 0x7fff_ffff,
            ;
        }
        while p != self.ed
            invariant
                g == self.grid(),
                self.shaped(),
                pos != self.ed,
                cells == rows(g) * cols(g),
                cells <= 0x7fff_ffff * 0x7fff_ffff,
                seen.len() <= cells,
                searching(g, pos, marks_of(map_temp), queue@, dist, seen),
                reached(g, marks_of(map_temp), self.ed) ==> p == self.ed,
                p == self.ed ==> reached(g, marks_of(map_temp), self.ed) && step == dist[self.ed],
            decreases cells - seen.len(), queue@.len(),
        {
            let ghost t = marks_of(map_temp);
            let ghost queue0 = queue@;
            if queue.len() == 0 {
                proof {
                    lemma_search_exhausted(g, pos, t, queue0, dist, seen, self.ed);
                    assert forall|w: Seq<Point>| !#[trigger] walk_between(
                        g,
                        w,
                        pos,
                        self.ed,
                    ) by {
                        if walk_between(g, w, pos, self.ed) {
                            assert(walk_from(g, w, pos));
                        }
                    }
                }
                return Err(MazeError::QueueEmpty);
            }
            let front = queue.pop_front().unwrap();
            p = front.0;
            lp = front.1;
            step = front.2;
            proof {
                assert(front == queue0[0]);
                assert(queue@ =~= queue0.drop_first());
                assert(visit_ok(g, pos, t, dist, seen.len(), queue0[0]));
                assert(t[p.0 as int].len() == g[0].len());
            }
            if map_temp[p.0 as usize][p.1 as usize].is_some() {
                proof {
                    lemma_search_skips(g, pos, t, queue0, dist, seen);
                }
            } else {
                let origin = match lp {
                    Some(q) => q,
                    None => p,
                };
                map_temp[p.0 as usize][p.1 as usize] = Some(origin);
                proof {
                    assert(marks_of(map_temp) =~~= with_mark(t, p, Some(origin)));
                    lemma_with_mark(g, t, p, Some(origin));
                    lemma_search_records(g, pos, t, queue0, dist, seen);
                    dist = dist.insert(p, step as int);
                    seen = seen.push(p);
                    assert forall|k: int| 0 <= k < seen.len() implies 0 <= (#[trigger] seen[k]).0
                        < rows(g) && 0 <= seen[k].1 < cols(g) by {
                        assert(seen.contains(seen[k]));
                    }
                    lemma_cells_bounded(rows(g), cols(g), seen);
                }
                let found = self.solve_get_roads(&map_temp, p);
                let ghost rest = queue@;
                let mut k: usize = 0;
                while k < found.len()
                    invariant
                        k <= found@.len(),
                        step < u64::MAX,
                        queue@ == rest + visits(found@, p, (step + 1) as u64).take(k as int),
                    decreases found@.len() - k,
                {
                    let road = found[k];
                    queue.push_back((road, Some(p), step + 1));
                    k += 1;
                    assert(queue@ =~= rest + visits(found@, p, (step + 1) as u64).take(k as int));
                }
                proof {
                    let added = visits(found@, p, (step + 1) as u64);
                    assert(added.take(added.len() as int) =~= added);
                }
            }
        }
        let ghost t = marks_of(map_temp);
        let mut rev: Vec<Point> = Vec::new();
        let mut cur = self.ed;
        rev.push(cur);
        let mut k: u64 = step;
        while k > 0
            invariant
                rectangular(g),
                same_shape(g, t),
                t == marks_of(map_temp),
                marks_sound(g, pos, t, dist, seen.len()),
                step == dist[self.ed],
                k <= step,
                rev@.len() == step - k + 1,
                rev@[0] == self.ed,
                rev@.last() == cur,
                forall|i: int|
                    0 <= i < rev@.len() ==> reached(g, t, #[trigger] rev@[i]) && dist[rev@[i]]
                        == step - i,
                forall|i: int| 0 <= i < rev@.len() - 1 ==> #[trigger] back_step(g, rev@, i),
            decreases k,
        {
            proof {
                assert(reached(g, t, rev@[rev@.len() - 1]));
                assert(mark_ok(g, pos, t, dist, cur));
                assert(t[cur.0 as int].len() == g[0].len());
            }
            let ghost before = rev@;
            let from = map_temp[cur.0 as usize][cur.1 as usize].unwrap();
            cur = from;
            rev.push(cur);
            k -= 1;
            proof {
                assert forall|i: int| 0 <= i < rev@.len() implies reached(g, t, #[trigger] rev@[i])
                    && dist[rev@[i]] == step - i by {
                    if i < before.len() {
                        assert(rev@[i] == before[i]);
                    }
                }
                assert forall|i: int| 0 <= i < rev@.len() - 1 implies #[trigger] back_step(
                    g,
                    rev@,
                    i,
                ) by {
                    if i < before.len() - 1 {
                        assert(back_step(g, before, i));
                        assert(rev@[i + 1] == before[i + 1] && rev@[i] == before[i]);
                    } else {
                        assert(rev@[i] == before[before.len() - 1]);
                    }
                }
            }
        }
        proof {
            assert(reached(g, t, rev@[rev@.len() - 1]));
            assert(mark_ok(g, pos, t, dist, cur));
            assert(cur == pos);
            assert(dist_least(g, pos, t, dist));
        }
        let n = rev.len();
        let mut res: Vec<Point> = Vec::new();
        let mut i: usize = 0;
        while i < n
            invariant
                i <= n,
                n == rev@.len(),
                res@.len() == i,
                forall|x: int| 0 <= x < i ==> #[trigger] res@[x] == rev@[n - 1 - x],
            decreases n - i,
        {
            res.push(rev[n - 1 - i]);
            i += 1;
        }
        proof {
            let path = res@;
            assert(path[0] == pos);
            assert(path.last() == self.ed);
            assert forall|x: int| 1 <= x < path.len() implies open_at(g, #[trigger] path[x]) by {
                assert(path[x] == rev@[n - 1 - x]);
                assert(back_step(g, rev@, n - 1 - x));
            }
            assert forall|x: int| 0 <= x < path.len() - 1 implies #[trigger] step_at(path, x) by {
                assert(path[x] == rev@[n - 1 - x]);
                assert(path[x + 1] == rev@[n - 2 - x]);
                assert(back_step(g, rev@, n - 2 - x));
            }
            assert(is_walk(g, path));
            assert forall|w: Seq<Point>| #[trigger] walk_between(g, w, pos, self.ed) implies path.len()
                <= w.len() by {
                assert(walk_from(g, w, pos));
                assert(reached(g, t, w[w.len() - 1]));
            }
        }
        if res[0] != pos {
            return Err(MazeError::SolveException);
        }
        Ok(res)
    }
}

} // verus!
