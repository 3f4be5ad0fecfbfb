//! The mathematical model of the grid: cells, walks, and the carve order that
//! makes a maze perfect.

use crate::map_value::MapValue;
use crate::point::Point;
use vstd::prelude::*;
use vstd::set_lib::{lemma_int_range, lemma_len_subset, set_int_range};

verus! {

/// A grid as rows of cells.
pub type Grid = Seq<Seq<MapValue>>;

/// All rows have the length of the first, and both dimensions fit in `i32`.
pub open spec fn rectangular(g: Grid) -> bool {
    &&& 1 <= g.len() <= i32::MAX
    &&& 1 <= g[0].len() <= i32::MAX
    &&& forall|i: int| 0 <= i < g.len() ==> (#[trigger] g[i]).len() == g[0].len()
}

/// The number of rows.
pub open spec fn rows(g: Grid) -> int {
    g.len() as int
}

/// The number of columns.
pub open spec fn cols(g: Grid) -> int {
    g[0].len() as int
}

/// `p` names a cell of the grid.
pub open spec fn in_grid(g: Grid, p: Point) -> bool {
    0 <= p.0 < rows(g) && 0 <= p.1 < cols(g)
}

/// What the cell at `p` holds.
pub open spec fn cell(g: Grid, p: Point) -> MapValue {
    g[p.0 as int][p.1 as int]
}

/// `p` is a cell of the grid that is no wall.
pub open spec fn open_at(g: Grid, p: Point) -> bool {
    in_grid(g, p) && cell(g, p) != MapValue::Wall
}

/// The grid with the cell at `p` set to `v`.
pub open spec fn with_cell(g: Grid, p: Point, v: MapValue) -> Grid {
    g.update(p.0 as int, g[p.0 as int].update(p.1 as int, v))
}

/// A grid of `r` rows and `c` columns, every cell a wall.
pub open spec fn all_walls(r: int, c: int) -> Grid {
    Seq::new(r as nat, |i: int| Seq::new(c as nat, |j: int| MapValue::Wall))
}

/// `a` comes before `b` when the grid is read row by row.
pub open spec fn reads_before(a: Point, b: Point) -> bool {
    a.0 < b.0 || (a.0 == b.0 && a.1 < b.1)
}

/// A walk: at least one cell, each cell in the grid, each cell after the
/// first no wall, and each step to an adjacent cell.
pub open spec fn is_walk(g: Grid, w: Seq<Point>) -> bool {
    &&& w.len() >= 1
    &&& in_grid(g, w[0])
    &&& forall|i: int| 1 <= i < w.len() ==> open_at(g, #[trigger] w[i])
    &&& forall|i: int| 0 <= i < w.len() - 1 ==> #[trigger] step_at(w, i)
}

/// The step from place `i` of `w` to the next place leads to an adjacent
/// cell.
pub open spec fn step_at(w: Seq<Point>, i: int) -> bool {
    w[i].adjacent(w[i + 1])
}

/// A walk from `a` to `b`.
pub open spec fn walk_between(g: Grid, w: Seq<Point>, a: Point, b: Point) -> bool {
    is_walk(g, w) && w[0] == a && w.last() == b
}

/// A path: a walk on open cells only that visits no cell twice.
pub open spec fn is_path(g: Grid, w: Seq<Point>) -> bool {
    &&& is_walk(g, w)
    &&& open_at(g, w[0])
    &&& w.no_duplicates()
}

/// A path from `a` to `b`.
pub open spec fn path_between(g: Grid, w: Seq<Point>, a: Point, b: Point) -> bool {
    is_path(g, w) && w[0] == a && w.last() == b
}

/// Among the cells before position `i` of `order`, `order[i]` has a
/// neighbour.
pub open spec fn has_earlier_neighbour(order: Seq<Point>, i: int) -> bool {
    exists|j: int| 0 <= j < i && (#[trigger] order[j]).adjacent(order[i])
}

/// Among the cells before position `i` of `order`, `order[i]` has at most one
/// neighbour.
pub open spec fn one_earlier_neighbour(order: Seq<Point>, i: int) -> bool {
    forall|j: int, k: int|
        0 <= j < i && 0 <= k < i && (#[trigger] order[j]).adjacent(order[i]) && (
        #[trigger] order[k]).adjacent(order[i]) ==> j == k
}

/// `order` lists the open cells of `g`, each once, so that every cell after
/// the first has exactly one neighbour among the cells listed before it.
///
/// Such an order exists exactly when the open cells form a tree: the maze can
/// be built by attaching one cell at a time to a single earlier cell.
pub open spec fn is_carve_order(g: Grid, order: Seq<Point>) -> bool {
    &&& order.no_duplicates()
    &&& forall|p: Point| open_at(g, p) <==> #[trigger] order.contains(p)
    &&& forall|i: int| 0 < i < order.len() ==> #[trigger] has_earlier_neighbour(order, i)
    &&& forall|i: int| 0 <= i < order.len() ==> #[trigger] one_earlier_neighbour(order, i)
}

/// The open cells of `g` form a tree.
pub open spec fn is_tree(g: Grid) -> bool {
    exists|order: Seq<Point>| #[trigger] is_carve_order(g, order)
}

/// The perfect-maze property: between any two open cells there is exactly one
/// path.
pub open spec fn is_perfect(g: Grid) -> bool {
    forall|a: Point, b: Point|
        #![trigger open_at(g, a), open_at(g, b)]
        open_at(g, a) && open_at(g, b) ==> {
            &&& exists|w: Seq<Point>| #[trigger] path_between(g, w, a, b)
            &&& forall|v: Seq<Point>, w: Seq<Point>|
                #![trigger path_between(g, v, a, b), path_between(g, w, a, b)]
                path_between(g, v, a, b) && path_between(g, w, a, b) ==> v == w
        }
}

/// The first `i` items of `s`, without those that `keep` refuses.
pub open spec fn kept(s: Seq<Point>, i: int, keep: spec_fn(Point) -> bool) -> Seq<Point>
    decreases i,
{
    if i <= 0 {
        Seq::empty()
    } else if keep(s[i - 1]) {
        kept(s, i - 1, keep).push(s[i - 1])
    } else {
        kept(s, i - 1, keep)
    }
}

/// What the neighbours kept by `keep` are: exactly the adjacent cells that
/// `keep` accepts, each once.
pub proof fn lemma_kept_neighbours(p: Point, keep: spec_fn(Point) -> bool)
    requires
        p.can_step(),
    ensures
        kept(p.neighbours(), 4, keep).len() <= 4,
        kept(p.neighbours(), 4, keep).no_duplicates(),
        forall|q: Point| #[trigger]
            kept(p.neighbours(), 4, keep).contains(q) <==> p.adjacent(q) && keep(q),
{
    reveal_with_fuel(kept, 5);
    let n = p.neighbours();
    let k = kept(n, 4, keep);
    let k1 = kept(n, 1, keep);
    let k2 = kept(n, 2, keep);
    let k3 = kept(n, 3, keep);
    assert(n[0] == p.up() && n[1] == p.down() && n[2] == p.left() && n[3] == p.right());
    assert forall|q: Point| #[trigger] k.contains(q) <==> p.adjacent(q) && keep(q) by {
        if k.contains(q) {
            let i = choose|i: int| 0 <= i < k.len() && k[i] == q;
            assert(k[i] == q);
        }
        if p.adjacent(q) && keep(q) {
            if q == n[0] {
                assert(k1.len() == 1 && k1[0] == q);
                assert(k[0] == q);
            } else if q == n[1] {
                assert(k2[k2.len() - 1] == q);
                assert(k[k2.len() - 1] == q);
            } else if q == n[2] {
                assert(k3[k3.len() - 1] == q);
                assert(k[k3.len() - 1] == q);
            } else {
                assert(q == n[3]);
                assert(k[k.len() - 1] == q);
            }
        }
    }
}

/// The more items are looked at, the more are kept.
pub proof fn lemma_kept_grows(s: Seq<Point>, i: int, j: int, keep: spec_fn(Point) -> bool)
    requires
        0 <= i <= j,
    ensures
        kept(s, i, keep).len() <= kept(s, j, keep).len(),
        kept(s, i, keep).len() > 0 ==> kept(s, j, keep)[0] == kept(s, i, keep)[0],
    decreases j - i,
{
    if i < j {
        lemma_kept_grows(s, i, j - 1, keep);
    }
}

/// Setting a cell keeps the shape of the grid and every other cell.
pub proof fn lemma_with_cell(g: Grid, p: Point, v: MapValue)
    requires
        rectangular(g),
        in_grid(g, p),
    ensures
        rectangular(with_cell(g, p, v)),
        rows(with_cell(g, p, v)) == rows(g),
        cols(with_cell(g, p, v)) == cols(g),
        cell(with_cell(g, p, v), p) == v,
        forall|q: Point| in_grid(g, q) && q != p ==> cell(with_cell(g, p, v), q) == cell(g, q),
        forall|q: Point| in_grid(with_cell(g, p, v), q) <==> in_grid(g, q),
{
    let h = with_cell(g, p, v);
    assert(h.len() == g.len());
    assert forall|i: int| 0 <= i < h.len() implies (#[trigger] h[i]).len() == g[0].len() by {
        assert(g[i].len() == g[0].len());
    }
    assert(h[0].len() == g[0].len());
}

/// A grid of walls is rectangular and has no open cell.
pub proof fn lemma_all_walls(r: int, c: int)
    requires
        1 <= r <= i32::MAX,
        1 <= c <= i32::MAX,
    ensures
        rectangular(all_walls(r, c)),
        rows(all_walls(r, c)) == r,
        cols(all_walls(r, c)) == c,
        forall|p: Point| in_grid(all_walls(r, c), p) ==> cell(all_walls(r, c), p) == MapValue::Wall,
{
}

/// Distinct cells of a grid of `r` rows and `c` columns are at most `r * c`.
pub proof fn lemma_cells_bounded(r: int, c: int, s: Seq<Point>)
    requires
        0 <= r,
        0 <= c,
        s.no_duplicates(),
        forall|i: int| 0 <= i < s.len() ==> 0 <= (#[trigger] s[i]).0 < r && 0 <= s[i].1 < c,
    ensures
        s.len() <= r * c,
{
    let t = Seq::new(s.len(), |i: int| s[i].0 * c + s[i].1);
    assert(0 <= r * c) by (nonlinear_arith)
        requires
            0 <= r,
            0 <= c,
    ;
    assert forall|i: int| 0 <= i < t.len() implies 0 <= #[trigger] t[i] < r * c by {
        let a = s[i].0 as int;
        let b = s[i].1 as int;
        assert(0 <= a * c + b < r * c) by (nonlinear_arith)
            requires
                0 <= a < r,
                0 <= b < c,
        ;
    }
    assert forall|i: int, j: int| 0 <= i < t.len() && 0 <= j < t.len() && i != j implies t[i]
        != t[j] by {
        let a = s[i].0 as int;
        let b = s[i].1 as int;
        let x = s[j].0 as int;
        let y = s[j].1 as int;
        assert(s[i] != s[j]);
        if a * c + b == x * c + y {
            assert(a == x) by (nonlinear_arith)
                requires
                    a * c + b == x * c + y,
                    0 <= b < c,
                    0 <= y < c,
            ;
            assert(b == y);
            assert(false);
        }
    }
    assert(t.no_duplicates());
    t.unique_seq_to_set();
    lemma_int_range(0, r * c);
    assert(t.to_set().subset_of(set_int_range(0, r * c))) by {
        assert forall|x: int| t.to_set().contains(x) implies set_int_range(0, r * c).contains(
            x,
        ) by {
            let i = choose|i: int| 0 <= i < t.len() && t[i] == x;
            assert(0 <= t[i] < r * c);
        }
    }
    lemma_len_subset(t.to_set(), set_int_range(0, r * c));
}

} // verus!
