//! Why a carved maze is perfect: between any two open cells of a grid that
//! has a carve order there is exactly one path.

use crate::grid::{
    has_earlier_neighbour, in_grid, is_carve_order, is_path, is_perfect, is_tree,
    one_earlier_neighbour, open_at, path_between, step_at, Grid,
};
use crate::maze_map::MazeMap;
use crate::point::Point;
use vstd::prelude::*;

verus! {

/// The place of `c` in `order`.
pub open spec fn rank(order: Seq<Point>, c: Point) -> int {
    order.index_of(c)
}

/// In a list without duplicates, the place of the item at `i` is `i`.
pub proof fn lemma_rank_of_item(order: Seq<Point>, i: int)
    requires
        order.no_duplicates(),
        0 <= i < order.len(),
    ensures
        rank(order, order[i]) == i,
        order.contains(order[i]),
{
    order.index_of_first_ensures(order[i]);
}

/// Every listed cell stands at its place.
pub proof fn lemma_item_of_rank(order: Seq<Point>, c: Point)
    requires
        order.contains(c),
    ensures
        0 <= rank(order, c) < order.len(),
        order[rank(order, c)] == c,
{
    order.index_of_first_ensures(c);
}

/// On a path whose second cell was carved after its first, every cell was
/// carved after the one before it, and after the first.
pub proof fn lemma_ascends(g: Grid, order: Seq<Point>, w: Seq<Point>, k: int)
    requires
        is_carve_order(g, order),
        is_path(g, w),
        1 <= k < w.len(),
        rank(order, w[1]) > rank(order, w[0]),
    ensures
        rank(order, w[k]) > rank(order, w[k - 1]),
        rank(order, w[k]) > rank(order, w[0]),
    decreases k,
{
    if k > 1 {
        lemma_ascends(g, order, w, k - 1);
        let a = w[k - 2];
        let b = w[k - 1];
        let c = w[k];
        assert(open_at(g, a) && open_at(g, b) && open_at(g, c));
        assert(order.contains(a) && order.contains(b) && order.contains(c));
        lemma_item_of_rank(order, a);
        lemma_item_of_rank(order, b);
        lemma_item_of_rank(order, c);
        assert(step_at(w, k - 2) && step_at(w, k - 1));
        assert(a.adjacent(b) && b.adjacent(c));
        assert(a != c);
        assert(b != c);
        let i = rank(order, b);
        if rank(order, c) < i {
            assert(one_earlier_neighbour(order, i));
            assert(order[rank(order, a)].adjacent(order[i]));
            assert(order[rank(order, c)].adjacent(order[i]));
            assert(rank(order, a) == rank(order, c));
            assert(false);
        }
    }
}

/// On a path whose first cell was carved after its last, the second cell was
/// carved before the first.
pub proof fn lemma_first_step_down(g: Grid, order: Seq<Point>, w: Seq<Point>)
    requires
        is_carve_order(g, order),
        is_path(g, w),
        w.len() >= 2,
        rank(order, w[0]) > rank(order, w.last()),
    ensures
        rank(order, w[1]) < rank(order, w[0]),
        w[1].adjacent(w[0]),
        order.contains(w[0]),
        order.contains(w[1]),
{
    assert(open_at(g, w[1]));
    assert(order.contains(w[0]) && order.contains(w[1]));
    lemma_item_of_rank(order, w[0]);
    lemma_item_of_rank(order, w[1]);
    assert(step_at(w, 0));
    assert(w[0].adjacent(w[1]));
    assert(w[0] != w[1]);
    if rank(order, w[1]) > rank(order, w[0]) {
        lemma_ascends(g, order, w, w.len() - 1);
    }
}

/// A path without its first cell is a path.
pub proof fn lemma_rest_is_path(g: Grid, w: Seq<Point>)
    requires
        is_path(g, w),
        w.len() >= 2,
    ensures
        is_path(g, w.skip(1)),
        w.skip(1)[0] == w[1],
        w.skip(1).last() == w.last(),
        w.skip(1).len() == w.len() - 1,
{
    let r = w.skip(1);
    assert forall|i: int| 0 <= i < r.len() implies r[i] == w[i + 1] by {}
    assert forall|i: int| 1 <= i < r.len() implies open_at(g, #[trigger] r[i]) by {
        assert(r[i] == w[i + 1]);
    }
    assert forall|i: int| 0 <= i < r.len() - 1 implies #[trigger] step_at(r, i) by {
        assert(r[i] == w[i + 1] && r[i + 1] == w[i + 2]);
        assert(step_at(w, i + 1));
    }
    assert(open_at(g, w[1]));
    assert(in_grid(g, r[0]));
}

/// A path read backwards is a path.
pub proof fn lemma_reverse_is_path(g: Grid, w: Seq<Point>)
    requires
        is_path(g, w),
    ensures
        is_path(g, w.reverse()),
        w.reverse()[0] == w.last(),
        w.reverse().last() == w[0],
        w.reverse().len() == w.len(),
        w.reverse().reverse() == w,
{
    let r = w.reverse();
    let n = w.len() as int;
    assert forall|i: int| 0 <= i < n implies r[i] == w[n - 1 - i] by {}
    assert forall|i: int| 0 <= i < n implies open_at(g, #[trigger] w[i]) by {}
    assert forall|i: int| 1 <= i < r.len() implies open_at(g, #[trigger] r[i]) by {
        assert(r[i] == w[n - 1 - i]);
    }
    assert forall|i: int| 0 <= i < r.len() - 1 implies #[trigger] step_at(r, i) by {
        assert(r[i] == w[n - 1 - i] && r[i + 1] == w[n - 2 - i]);
        assert(step_at(w, n - 2 - i));
    }
    assert(r.no_duplicates()) by {
        assert forall|i: int, j: int| 0 <= i < r.len() && 0 <= j < r.len() && i != j implies r[i]
            != r[j] by {
            assert(r[i] == w[n - 1 - i] && r[j] == w[n - 1 - j]);
        }
    }
    assert(r[0] == w[n - 1]);
    assert(open_at(g, r[0]));
    assert(r.reverse() =~= w);
}

/// Two paths with the same ends, the first cell carved after the last, take
/// the same first step.
pub proof fn lemma_same_first_step(g: Grid, order: Seq<Point>, v: Seq<Point>, w: Seq<Point>)
    requires
        is_carve_order(g, order),
        is_path(g, v),
        is_path(g, w),
        v.len() >= 2,
        w.len() >= 2,
        v[0] == w[0],
        v.last() == w.last(),
        rank(order, v[0]) > rank(order, v.last()),
    ensures
        v[1] == w[1],
{
    lemma_first_step_down(g, order, v);
    lemma_first_step_down(g, order, w);
    lemma_item_of_rank(order, v[0]);
    lemma_item_of_rank(order, v[1]);
    lemma_item_of_rank(order, w[1]);
    let i = rank(order, v[0]);
    assert(one_earlier_neighbour(order, i));
    assert(order[rank(order, v[1])].adjacent(order[i]));
    assert(order[rank(order, w[1])].adjacent(order[i]));
}

/// Two paths with the same ends are the same path.
pub proof fn lemma_paths_equal(g: Grid, order: Seq<Point>, v: Seq<Point>, w: Seq<Point>)
    requires
        is_carve_order(g, order),
        is_path(g, v),
        is_path(g, w),
        v[0] == w[0],
        v.last() == w.last(),
    ensures
        v == w,
    decreases v.len(),
{
    let a = v[0];
    let b = v.last();
    if v.len() == 1 {
        if w.len() > 1 {
            assert(w[0] == w[w.len() - 1]);
            assert(false);
        }
        assert(v =~= w);
    } else {
        assert(v[0] != v[v.len() - 1]);
        assert(w.len() >= 2);
        assert(open_at(g, v[v.len() - 1]));
        assert(order.contains(a) && order.contains(b));
        lemma_item_of_rank(order, a);
        lemma_item_of_rank(order, b);
        assert(rank(order, a) != rank(order, b));
        if rank(order, a) > rank(order, b) {
            lemma_same_first_step(g, order, v, w);
            lemma_rest_is_path(g, v);
            lemma_rest_is_path(g, w);
            lemma_paths_equal(g, order, v.skip(1), w.skip(1));
            assert(v =~= seq![a] + v.skip(1));
            assert(w =~= seq![a] + w.skip(1));
        } else {
            let vr = v.reverse();
            let wr = w.reverse();
            lemma_reverse_is_path(g, v);
            lemma_reverse_is_path(g, w);
            lemma_same_first_step(g, order, vr, wr);
            lemma_rest_is_path(g, vr);
            lemma_rest_is_path(g, wr);
            lemma_paths_equal(g, order, vr.skip(1), wr.skip(1));
            assert(vr =~= seq![b] + vr.skip(1));
            assert(wr =~= seq![b] + wr.skip(1));
            assert(vr == wr);
        }
    }
}

/// A path between the cells at places `i` and `j` of a carve order, through
/// cells carved no later than both.
pub proof fn lemma_connect(g: Grid, order: Seq<Point>, i: int, j: int) -> (w: Seq<Point>)
    requires
        is_carve_order(g, order),
        0 <= i < order.len(),
        0 <= j < order.len(),
    ensures
        path_between(g, w, order[i], order[j]),
        forall|k: int|
            0 <= k < w.len() ==> order.contains(#[trigger] w[k]) && rank(order, w[k]) <= if i
                >= j {
                i
            } else {
                j
            },
    decreases i + j,
{
    lemma_rank_of_item(order, i);
    lemma_rank_of_item(order, j);
    assert(open_at(g, order[i]) && open_at(g, order[j]));
    if i == j {
        let w = seq![order[i]];
        assert(w[0] == order[i]);
        w
    } else if i > j {
        assert(has_earlier_neighbour(order, i));
        let p = choose|p: int| 0 <= p < i && (#[trigger] order[p]).adjacent(order[i]);
        let rest = lemma_connect(g, order, p, j);
        let w = seq![order[i]] + rest;
        assert forall|k: int| 0 <= k < w.len() implies order.contains(#[trigger] w[k]) && rank(
            order,
            w[k],
        ) <= i by {
            if k > 0 {
                assert(w[k] == rest[k - 1]);
            }
        }
        assert forall|k: int| 1 <= k < w.len() implies open_at(g, #[trigger] w[k]) by {
            assert(w[k] == rest[k - 1]);
            assert(order.contains(rest[k - 1]));
        }
        assert forall|k: int| 0 <= k < w.len() - 1 implies #[trigger] step_at(w, k) by {
            if k == 0 {
                assert(w[1] == rest[0]);
            } else {
                assert(w[k] == rest[k - 1] && w[k + 1] == rest[k]);
                assert(step_at(rest, k - 1));
            }
        }
        assert(w.no_duplicates()) by {
            assert forall|x: int, y: int| 0 <= x < w.len() && 0 <= y < w.len() && x != y implies w[x]
                != w[y] by {
                if x > 0 && y > 0 {
                    assert(w[x] == rest[x - 1] && w[y] == rest[y - 1]);
                } else if x == 0 {
                    assert(w[y] == rest[y - 1]);
                    assert(rank(order, rest[y - 1]) < i);
                } else {
                    assert(w[x] == rest[x - 1]);
                    assert(rank(order, rest[x - 1]) < i);
                }
            }
        }
        assert(w.last() == rest.last());
        w
    } else {
        assert(has_earlier_neighbour(order, j));
        let p = choose|p: int| 0 <= p < j && (#[trigger] order[p]).adjacent(order[j]);
        let rest = lemma_connect(g, order, i, p);
        let w = rest.push(order[j]);
        assert forall|k: int| 0 <= k < w.len() implies order.contains(#[trigger] w[k]) && rank(
            order,
            w[k],
        ) <= j by {
            if k < rest.len() {
                assert(w[k] == rest[k]);
            }
        }
        assert forall|k: int| 1 <= k < w.len() implies open_at(g, #[trigger] w[k]) by {
            if k < rest.len() {
                assert(w[k] == rest[k]);
            }
        }
        assert forall|k: int| 0 <= k < w.len() - 1 implies #[trigger] step_at(w, k) by {
            if k < rest.len() - 1 {
                assert(w[k] == rest[k] && w[k + 1] == rest[k + 1]);
                assert(step_at(rest, k));
            } else {
                assert(w[k] == rest.last());
            }
        }
        assert(w.no_duplicates()) by {
            assert forall|x: int, y: int| 0 <= x < w.len() && 0 <= y < w.len() && x != y implies w[x]
                != w[y] by {
                if x < rest.len() && y < rest.len() {
                    assert(w[x] == rest[x] && w[y] == rest[y]);
                } else if x < rest.len() {
                    assert(w[x] == rest[x]);
                    assert(rank(order, rest[x]) < j);
                } else {
                    assert(w[y] == rest[y]);
                    assert(rank(order, rest[y]) < j);
                }
            }
        }
        assert(w[0] == rest[0]);
        w
    }
}

/// A grid whose open cells form a tree is a perfect maze: between any two
/// open cells there is exactly one path.
pub proof fn lemma_tree_is_perfect(g: Grid)
    requires
        is_tree(g),
    ensures
        is_perfect(g),
{
    let order = choose|order: Seq<Point>| #[trigger] is_carve_order(g, order);
    assert forall|a: Point, b: Point|
        #![trigger open_at(g, a), open_at(g, b)]
        open_at(g, a) && open_at(g, b) implies {
        &&& exists|w: Seq<Point>| #[trigger] path_between(g, w, a, b)
        &&& forall|v: Seq<Point>, w: Seq<Point>|
            #![trigger path_between(g, v, a, b), path_between(g, w, a, b)]
            path_between(g, v, a, b) && path_between(g, w, a, b) ==> v == w
    } by {
        assert(order.contains(a) && order.contains(b));
        lemma_item_of_rank(order, a);
        lemma_item_of_rank(order, b);
        let w = lemma_connect(g, order, rank(order, a), rank(order, b));
        assert(path_between(g, w, a, b));
        assert forall|v: Seq<Point>, w: Seq<Point>|
            #![trigger path_between(g, v, a, b), path_between(g, w, a, b)]
            path_between(g, v, a, b) && path_between(g, w, a, b) implies v == w by {
            lemma_paths_equal(g, order, v, w);
        }
    }
}

/// Every maze that generation gives is perfect: between any two of its open
/// cells, the start and the end among them, there is exactly one path.
pub proof fn lemma_generated_is_perfect(m: MazeMap)
    requires
        m.wf(),
    ensures
        is_perfect(m.grid()),
        open_at(m.grid(), m.st),
        open_at(m.grid(), m.ed),
{
    lemma_tree_is_perfect(m.grid());
}

} // verus!
