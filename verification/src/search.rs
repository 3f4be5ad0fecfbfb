//! The model of the breadth-first search: what is recorded of each cell that
//! has been reached, what waits in the queue, and why the first distance
//! recorded for a cell is the shortest.

use crate::grid::{
    cell, in_grid, is_walk, kept, lemma_kept_neighbours, open_at, rectangular, step_at, Grid,
};
use crate::map_value::MapValue;
use crate::point::Point;
use vstd::prelude::*;

verus! {

/// For each cell, the cell it was reached from, once it has been reached. The
/// cell the search began at is recorded as reached from itself.
pub type Marks = Seq<Seq<Option<Point>>>;

/// An entry of the queue: a cell, the cell it was found from (none for the
/// cell the search begins at), and its distance.
pub type Visit = (Point, Option<Point>, u64);

/// What is recorded for `c`.
pub open spec fn mark(t: Marks, c: Point) -> Option<Point> {
    t[c.0 as int][c.1 as int]
}

/// The marks have the shape of the grid.
pub open spec fn same_shape(g: Grid, t: Marks) -> bool {
    &&& t.len() == g.len()
    &&& forall|i: int| 0 <= i < t.len() ==> (#[trigger] t[i]).len() == g[0].len()
}

/// `c` is a cell of the grid that has been reached.
pub open spec fn reached(g: Grid, t: Marks, c: Point) -> bool {
    in_grid(g, c) && mark(t, c) is Some
}

/// The marks with `v` recorded for `c`.
pub open spec fn with_mark(t: Marks, c: Point, v: Option<Point>) -> Marks {
    t.update(c.0 as int, t[c.0 as int].update(c.1 as int, v))
}

/// Marks of the shape of `g` with nothing recorded.
pub open spec fn no_marks(g: Grid) -> Marks {
    Seq::new(g.len(), |i: int| Seq::new(g[0].len(), |j: int| None::<Point>))
}

/// The test that the search applies to a neighbour: it is in the grid, has
/// not been reached, and is no wall.
pub open spec fn is_road(g: Grid, t: Marks) -> spec_fn(Point) -> bool {
    |q: Point| in_grid(g, q) && mark(t, q) is None && cell(g, q) != MapValue::Wall
}

/// The neighbours of `p` that the search goes on to, in the order up, down,
/// left, right.
pub open spec fn roads(g: Grid, t: Marks, p: Point) -> Seq<Point> {
    kept(p.neighbours(), 4, is_road(g, t))
}

/// The queue entries for `cells`, each found from `from` at distance `d`.
pub open spec fn visits(cells: Seq<Point>, from: Point, d: u64) -> Seq<Visit> {
    Seq::new(cells.len(), |i: int| (cells[i], Some(from), d))
}

/// What is recorded for a reached cell is sound: the cell the search began at
/// has distance zero; any other was reached from an adjacent reached cell
/// one step nearer, and is open.
pub open spec fn mark_ok(g: Grid, pos: Point, t: Marks, dist: Map<Point, int>, c: Point) -> bool {
    &&& dist.contains_key(c)
    &&& dist[c] >= 0
    &&& dist[c] == 0 ==> c == pos
    &&& dist[c] > 0 ==> {
        let q = mark(t, c)->0;
        &&& reached(g, t, q)
        &&& dist.contains_key(q)
        &&& dist[q] == dist[c] - 1
        &&& q.adjacent(c)
        &&& open_at(g, c)
    }
}

/// An entry of the queue is sound.
pub open spec fn visit_ok(
    g: Grid,
    pos: Point,
    t: Marks,
    dist: Map<Point, int>,
    count: nat,
    e: Visit,
) -> bool {
    &&& in_grid(g, e.0)
    &&& e.2 <= count
    &&& match e.1 {
        None => e.0 == pos && e.2 == 0,
        Some(q) => {
            &&& reached(g, t, q)
            &&& dist.contains_key(q)
            &&& dist[q] == e.2 - 1
            &&& q.adjacent(e.0)
            &&& open_at(g, e.0)
        },
    }
}

/// The cell `v` waits in the queue at a distance of at most `bound`.
pub open spec fn waiting(queue: Seq<Visit>, v: Point, bound: int) -> bool {
    exists|i: int| 0 <= i < queue.len() && (#[trigger] queue[i]).0 == v && queue[i].2 <= bound
}

/// `w` is a walk that begins at `pos`.
pub open spec fn walk_from(g: Grid, w: Seq<Point>, pos: Point) -> bool {
    is_walk(g, w) && w[0] == pos
}

/// `seen` lists the reached cells, each once.
pub open spec fn seen_lists(g: Grid, t: Marks, seen: Seq<Point>) -> bool {
    &&& seen.no_duplicates()
    &&& forall|c: Point| reached(g, t, c) <==> #[trigger] seen.contains(c)
}

/// What is recorded for every reached cell is sound, and its distance is
/// below the number of reached cells.
pub open spec fn marks_sound(
    g: Grid,
    pos: Point,
    t: Marks,
    dist: Map<Point, int>,
    count: nat,
) -> bool {
    forall|c: Point| #[trigger] reached(g, t, c) ==> mark_ok(g, pos, t, dist, c) && dist[c] < count
}

/// Every entry of the queue is sound.
pub open spec fn queue_sound(
    g: Grid,
    pos: Point,
    t: Marks,
    queue: Seq<Visit>,
    dist: Map<Point, int>,
    count: nat,
) -> bool {
    forall|i: int| 0 <= i < queue.len() ==> visit_ok(g, pos, t, dist, count, #[trigger] queue[i])
}

/// The distances in the queue do not fall, and span at most one step.
pub open spec fn queue_sorted(queue: Seq<Visit>) -> bool {
    forall|i: int, j: int|
        0 <= i <= j < queue.len() ==> (#[trigger] queue[i]).2 <= (#[trigger] queue[j]).2
            <= queue[0].2 + 1
}

/// Every open, unreached neighbour of a reached cell waits in the queue, one
/// step further than that cell at most.
pub open spec fn frontier_waits(g: Grid, t: Marks, queue: Seq<Visit>, dist: Map<Point, int>) -> bool {
    forall|u: Point, v: Point|
        #![trigger reached(g, t, u), open_at(g, v)]
        reached(g, t, u) && u.adjacent(v) && open_at(g, v) && !reached(g, t, v) ==> waiting(
            queue,
            v,
            dist[u] + 1,
        )
}

/// The distance of a reached cell is no greater than its place on any walk
/// from the start.
pub open spec fn dist_least(g: Grid, pos: Point, t: Marks, dist: Map<Point, int>) -> bool {
    forall|w: Seq<Point>, j: int|
        #![trigger walk_from(g, w, pos), w[j]]
        walk_from(g, w, pos) && 0 <= j < w.len() && reached(g, t, w[j]) ==> dist[w[j]] <= j
}

/// What holds while the search from `pos` runs: `seen` lists the reached
/// cells in the order they were reached, `dist` gives their distances.
pub open spec fn searching(
    g: Grid,
    pos: Point,
    t: Marks,
    queue: Seq<Visit>,
    dist: Map<Point, int>,
    seen: Seq<Point>,
) -> bool {
    &&& rectangular(g)
    &&& same_shape(g, t)
    &&& in_grid(g, pos)
    &&& seen_lists(g, t, seen)
    &&& marks_sound(g, pos, t, dist, seen.len())
    &&& seen.len() > 0 ==> seen[0] == pos
    &&& seen.len() == 0 ==> queue.len() == 1 && queue[0] == (pos, None::<Point>, 0u64)
    &&& queue_sound(g, pos, t, queue, dist, seen.len())
    &&& queue_sorted(queue)
    &&& frontier_waits(g, t, queue, dist)
    &&& dist_least(g, pos, t, dist)
}

/// Recording a mark keeps the shape, sets the mark of that cell and no other.
pub proof fn lemma_with_mark(g: Grid, t: Marks, c: Point, v: Option<Point>)
    requires
        rectangular(g),
        same_shape(g, t),
        in_grid(g, c),
    ensures
        same_shape(g, with_mark(t, c, v)),
        mark(with_mark(t, c, v), c) == v,
        forall|q: Point| in_grid(g, q) && q != c ==> mark(with_mark(t, c, v), q) == mark(t, q),
{
    let t2 = with_mark(t, c, v);
    assert forall|i: int| 0 <= i < t2.len() implies (#[trigger] t2[i]).len() == g[0].len() by {
        assert(t[i].len() == g[0].len());
    }
}

/// What the roads are: exactly the open, unreached cells of the grid adjacent
/// to `p`, each once.
pub proof fn lemma_roads(g: Grid, t: Marks, p: Point)
    requires
        p.can_step(),
    ensures
        roads(g, t, p).len() <= 4,
        roads(g, t, p).no_duplicates(),
        forall|q: Point| #[trigger]
            roads(g, t, p).contains(q) <==> p.adjacent(q) && open_at(g, q) && mark(t, q) is None,
        forall|i: int|
            0 <= i < roads(g, t, p).len() ==> {
                &&& p.adjacent(#[trigger] roads(g, t, p)[i])
                &&& open_at(g, roads(g, t, p)[i])
                &&& mark(t, roads(g, t, p)[i]) is None
            },
{
    lemma_kept_neighbours(p, is_road(g, t));
    let r = roads(g, t, p);
    assert forall|i: int| 0 <= i < r.len() implies {
        &&& p.adjacent(#[trigger] r[i])
        &&& open_at(g, r[i])
        &&& mark(t, r[i]) is None
    } by {
        assert(r.contains(r[i]));
    }
}

/// On a walk that begins at a reached cell and comes to an unreached one,
/// some unreached cell follows a reached one, at or before that place.
pub proof fn lemma_first_unreached(g: Grid, t: Marks, w: Seq<Point>, j: int) -> (i: int)
    requires
        0 < j < w.len(),
        reached(g, t, w[0]),
        !reached(g, t, w[j]),
    ensures
        0 < i <= j,
        reached(g, t, w[i - 1]),
        !reached(g, t, w[i]),
    decreases j,
{
    if reached(g, t, w[j - 1]) {
        j
    } else {
        lemma_first_unreached(g, t, w, j - 1)
    }
}

/// While the search runs, every unreached cell on a walk from the start has
/// a cell before it, or is itself, waiting in the queue at a distance no
/// greater than its place on the walk.
pub proof fn lemma_walk_waits(
    g: Grid,
    pos: Point,
    t: Marks,
    queue: Seq<Visit>,
    dist: Map<Point, int>,
    seen: Seq<Point>,
    w: Seq<Point>,
    j: int,
) -> (i: int)
    requires
        searching(g, pos, t, queue, dist, seen),
        walk_from(g, w, pos),
        0 <= j < w.len(),
        !reached(g, t, w[j]),
    ensures
        0 <= i < queue.len(),
        queue[i].2 <= j,
{
    if seen.len() == 0 {
        0
    } else {
        assert(seen.contains(seen[0]));
        assert(reached(g, t, w[0]));
        let k = lemma_first_unreached(g, t, w, j);
        let u = w[k - 1];
        let v = w[k];
        assert(open_at(g, v));
        assert(step_at(w, k - 1));
        assert(u.adjacent(v));
        assert(dist[u] <= k - 1);
        assert(waiting(queue, v, dist[u] + 1));
        let i = choose|i: int| 0 <= i < queue.len() && (#[trigger] queue[i]).0 == v && queue[i].2
            <= dist[u] + 1;
        i
    }
}

/// The search begins: with nothing reached and the start alone in the queue,
/// what holds while the search runs holds.
pub proof fn lemma_search_starts(g: Grid, pos: Point)
    requires
        rectangular(g),
        in_grid(g, pos),
    ensures
        same_shape(g, no_marks(g)),
        searching(
            g,
            pos,
            no_marks(g),
            seq![(pos, None::<Point>, 0u64)],
            Map::<Point, int>::empty(),
            Seq::<Point>::empty(),
        ),
{
    let t = no_marks(g);
    let queue = seq![(pos, None::<Point>, 0u64)];
    assert(queue[0] == (pos, None::<Point>, 0u64));
    assert forall|c: Point| !reached(g, t, c) by {
        if in_grid(g, c) {
            assert(t[c.0 as int][c.1 as int] is None);
        }
    }
}

/// A sorted queue without its first entry is sorted, and its sound entries
/// stay sound.
pub proof fn lemma_rest_of_queue(
    g: Grid,
    pos: Point,
    t: Marks,
    queue: Seq<Visit>,
    dist: Map<Point, int>,
    count: nat,
)
    requires
        queue.len() > 0,
        queue_sorted(queue),
        queue_sound(g, pos, t, queue, dist, count),
    ensures
        queue_sorted(queue.drop_first()),
        queue_sound(g, pos, t, queue.drop_first(), dist, count),
{
    let rest = queue.drop_first();
    assert forall|i: int| 0 <= i < rest.len() implies visit_ok(
        g,
        pos,
        t,
        dist,
        count,
        #[trigger] rest[i],
    ) by {
        assert(rest[i] == queue[i + 1]);
    }
    assert forall|i: int, j: int| 0 <= i <= j < rest.len() implies (#[trigger] rest[i]).2 <= (
    #[trigger] rest[j]).2 <= rest[0].2 + 1 by {
        assert(rest[i] == queue[i + 1] && rest[j] == queue[j + 1] && rest[0] == queue[1]);
        assert(queue[0].2 <= queue[1].2);
        assert(queue[i + 1].2 <= queue[j + 1].2 <= queue[0].2 + 1);
    }
}

/// Taking an entry for a reached cell from the queue keeps every open,
/// unreached neighbour of a reached cell waiting.
pub proof fn lemma_skips_frontier(g: Grid, t: Marks, queue: Seq<Visit>, dist: Map<Point, int>)
    requires
        queue.len() > 0,
        reached(g, t, queue[0].0),
        frontier_waits(g, t, queue, dist),
    ensures
        frontier_waits(g, t, queue.drop_first(), dist),
{
    let rest = queue.drop_first();
    assert forall|u: Point, v: Point|
        #![trigger reached(g, t, u), open_at(g, v)]
        reached(g, t, u) && u.adjacent(v) && open_at(g, v) && !reached(g, t, v) implies waiting(
        rest,
        v,
        dist[u] + 1,
    ) by {
        assert(waiting(queue, v, dist[u] + 1));
        let i = choose|i: int| 0 <= i < queue.len() && (#[trigger] queue[i]).0 == v && queue[i].2
            <= dist[u] + 1;
        assert(i > 0);
        assert(rest[i - 1] == queue[i]);
    }
}

/// Taking an entry for an already reached cell from the queue keeps what
/// holds while the search runs.
pub proof fn lemma_search_skips(
    g: Grid,
    pos: Point,
    t: Marks,
    queue: Seq<Visit>,
    dist: Map<Point, int>,
    seen: Seq<Point>,
)
    requires
        searching(g, pos, t, queue, dist, seen),
        queue.len() > 0,
        reached(g, t, queue[0].0),
    ensures
        searching(g, pos, t, queue.drop_first(), dist, seen),
{
    assert(seen.contains(queue[0].0));
    lemma_rest_of_queue(g, pos, t, queue, dist, seen.len());
    lemma_skips_frontier(g, t, queue, dist);
}

/// Recording a cell that was not reached adds it to the reached cells and
/// to their list.
pub proof fn lemma_records_seen(g: Grid, t: Marks, seen: Seq<Point>, c: Point, origin: Point)
    requires
        rectangular(g),
        same_shape(g, t),
        in_grid(g, c),
        seen_lists(g, t, seen),
        !reached(g, t, c),
    ensures
        seen_lists(g, with_mark(t, c, Some(origin)), seen.push(c)),
        forall|q: Point|
            reached(g, with_mark(t, c, Some(origin)), q) <==> reached(g, t, q) || q == c,
{
    let t2 = with_mark(t, c, Some(origin));
    let seen2 = seen.push(c);
    lemma_with_mark(g, t, c, Some(origin));
    assert forall|q: Point| reached(g, t2, q) <==> reached(g, t, q) || q == c by {
        if in_grid(g, q) && q != c {
            assert(mark(t2, q) == mark(t, q));
        }
    }
    assert(!seen.contains(c));
    assert(seen2.no_duplicates()) by {
        assert forall|i: int, j: int|
            0 <= i < seen2.len() && 0 <= j < seen2.len() && i != j implies seen2[i]
            != seen2[j] by {
            if i < seen.len() {
                assert(seen.contains(seen[i]));
            }
            if j < seen.len() {
                assert(seen.contains(seen[j]));
            }
        }
    }
    assert forall|q: Point| reached(g, t2, q) <==> #[trigger] seen2.contains(q) by {
        if seen2.contains(q) {
            let i = choose|i: int| 0 <= i < seen2.len() && seen2[i] == q;
            if i < seen.len() {
                assert(seen.contains(seen[i]));
            }
        }
        if reached(g, t2, q) {
            if q == c {
                assert(seen2[seen.len() as int] == c);
            } else {
                assert(seen.contains(q));
                let i = choose|i: int| 0 <= i < seen.len() && seen[i] == q;
                assert(seen2[i] == q);
            }
        }
    }
}

/// Recording a cell with a sound entry keeps what is recorded sound.
pub proof fn lemma_records_marks(
    g: Grid,
    pos: Point,
    t: Marks,
    dist: Map<Point, int>,
    count: nat,
    e: Visit,
)
    requires
        rectangular(g),
        same_shape(g, t),
        marks_sound(g, pos, t, dist, count),
        visit_ok(g, pos, t, dist, count, e),
        !reached(g, t, e.0),
        e.2 > 0 ==> e.1 is Some,
    ensures
        ({
            let origin = match e.1 {
                Some(q) => q,
                None => e.0,
            };
            marks_sound(
                g,
                pos,
                with_mark(t, e.0, Some(origin)),
                dist.insert(e.0, e.2 as int),
                count + 1,
            )
        }),
{
    let (c, from, d) = e;
    let origin = match from {
        Some(q) => q,
        None => c,
    };
    let t2 = with_mark(t, c, Some(origin));
    let dist2 = dist.insert(c, d as int);
    lemma_with_mark(g, t, c, Some(origin));
    assert forall|q: Point| #[trigger] reached(g, t2, q) implies mark_ok(g, pos, t2, dist2, q)
        && dist2[q] < count + 1 by {
        if q == c {
            if d > 0 {
                let o = from->0;
                assert(reached(g, t, o));
                assert(o != c);
                assert(mark(t2, o) == mark(t, o));
            }
        } else {
            assert(mark(t2, q) == mark(t, q));
            assert(reached(g, t, q));
            assert(mark_ok(g, pos, t, dist, q));
            if dist[q] > 0 {
                let o = mark(t, q)->0;
                assert(reached(g, t, o));
                assert(o != c);
                assert(mark(t2, o) == mark(t, o));
            }
        }
    }
}

/// Taking the first entry, recording its cell and queueing its roads keeps
/// every entry of the queue sound.
pub proof fn lemma_records_queue(
    g: Grid,
    pos: Point,
    t: Marks,
    queue: Seq<Visit>,
    dist: Map<Point, int>,
    count: nat,
    origin: Point,
)
    requires
        rectangular(g),
        same_shape(g, t),
        queue.len() > 0,
        queue_sound(g, pos, t, queue, dist, count),
        !reached(g, t, queue[0].0),
        queue[0].2 < u64::MAX,
    ensures
        ({
            let (c, from, d) = queue[0];
            let t2 = with_mark(t, c, Some(origin));
            queue_sound(
                g,
                pos,
                t2,
                queue.drop_first() + visits(roads(g, t2, c), c, (d + 1) as u64),
                dist.insert(c, d as int),
                count + 1,
            )
        }),
{
    let (c, from, d) = queue[0];
    let t2 = with_mark(t, c, Some(origin));
    let found = roads(g, t2, c);
    let added = visits(found, c, (d + 1) as u64);
    let rest = queue.drop_first();
    let queue2 = rest + added;
    let dist2 = dist.insert(c, d as int);
    assert(visit_ok(g, pos, t, dist, count, queue[0]));
    lemma_with_mark(g, t, c, Some(origin));
    lemma_roads(g, t2, c);
    assert forall|i: int| 0 <= i < queue2.len() implies visit_ok(
        g,
        pos,
        t2,
        dist2,
        count + 1,
        #[trigger] queue2[i],
    ) by {
        if i < rest.len() {
            assert(queue2[i] == queue[i + 1]);
            assert(visit_ok(g, pos, t, dist, count, queue[i + 1]));
            match queue[i + 1].1 {
                None => {},
                Some(o) => {
                    assert(reached(g, t, o));
                    assert(o != c);
                    assert(mark(t2, o) == mark(t, o));
                },
            }
        } else {
            assert(queue2[i] == added[i - rest.len()]);
            assert(added[i - rest.len()] == (found[i - rest.len()], Some(c), (d + 1) as u64));
            assert(mark(t2, c) is Some);
        }
    }
}

/// Taking the first entry and queueing cells one step further keeps the
/// queue sorted.
pub proof fn lemma_records_sorted(queue: Seq<Visit>, found: Seq<Point>, c: Point)
    requires
        queue.len() > 0,
        queue_sorted(queue),
        queue[0].2 < u64::MAX,
    ensures
        queue_sorted(queue.drop_first() + visits(found, c, (queue[0].2 + 1) as u64)),
        queue_sorted(queue.drop_first()),
{
    let d = queue[0].2;
    let added = visits(found, c, (d + 1) as u64);
    let rest = queue.drop_first();
    let queue2 = rest + added;
    assert forall|i: int| 0 <= i < queue.len() implies d <= (#[trigger] queue[i]).2 <= d + 1 by {
        assert(queue[0].2 <= queue[i].2 <= queue[0].2 + 1);
    }
    assert forall|i: int, j: int| 0 <= i <= j < queue2.len() implies (#[trigger] queue2[i]).2 <= (
    #[trigger] queue2[j]).2 <= queue2[0].2 + 1 by {
        if i < rest.len() {
            assert(queue2[i] == queue[i + 1]);
        } else {
            assert(queue2[i] == added[i - rest.len()]);
        }
        if j < rest.len() {
            assert(queue2[j] == queue[j + 1]);
            assert(queue[i + 1].2 <= queue[j + 1].2);
        } else {
            assert(queue2[j] == added[j - rest.len()]);
        }
        if 0 < rest.len() {
            assert(queue2[0] == queue[1]);
        } else {
            assert(queue2[0] == added[0]);
        }
    }
    assert forall|i: int, j: int| 0 <= i <= j < rest.len() implies (#[trigger] rest[i]).2 <= (
    #[trigger] rest[j]).2 <= rest[0].2 + 1 by {
        assert(rest[i] == queue[i + 1] && rest[j] == queue[j + 1] && rest[0] == queue[1]);
        assert(queue[i + 1].2 <= queue[j + 1].2);
    }
}

/// Taking the first entry, recording its cell and queueing its roads keeps
/// every open, unreached neighbour of a reached cell waiting.
pub proof fn lemma_records_frontier(
    g: Grid,
    t: Marks,
    queue: Seq<Visit>,
    dist: Map<Point, int>,
    origin: Point,
)
    requires
        rectangular(g),
        same_shape(g, t),
        queue.len() > 0,
        in_grid(g, queue[0].0),
        !reached(g, t, queue[0].0),
        frontier_waits(g, t, queue, dist),
        queue[0].2 < u64::MAX,
    ensures
        ({
            let (c, from, d) = queue[0];
            let t2 = with_mark(t, c, Some(origin));
            frontier_waits(
                g,
                t2,
                queue.drop_first() + visits(roads(g, t2, c), c, (d + 1) as u64),
                dist.insert(c, d as int),
            )
        }),
{
    let (c, from, d) = queue[0];
    let t2 = with_mark(t, c, Some(origin));
    let found = roads(g, t2, c);
    let added = visits(found, c, (d + 1) as u64);
    let rest = queue.drop_first();
    let queue2 = rest + added;
    let dist2 = dist.insert(c, d as int);
    lemma_with_mark(g, t, c, Some(origin));
    lemma_roads(g, t2, c);
    assert forall|u: Point, v: Point|
        #![trigger reached(g, t2, u), open_at(g, v)]
        reached(g, t2, u) && u.adjacent(v) && open_at(g, v) && !reached(g, t2, v) implies waiting(
        queue2,
        v,
        dist2[u] + 1,
    ) by {
        assert(v != c);
        assert(mark(t2, v) == mark(t, v));
        if u == c {
            assert(found.contains(v));
            let k = choose|k: int| 0 <= k < found.len() && found[k] == v;
            assert(queue2[rest.len() + k] == added[k]);
            assert(queue2[rest.len() + k].0 == v);
        } else {
            assert(mark(t2, u) == mark(t, u));
            assert(reached(g, t, u) && !reached(g, t, v));
            assert(waiting(queue, v, dist[u] + 1));
            let i = choose|i: int| 0 <= i < queue.len() && (#[trigger] queue[i]).0 == v
                && queue[i].2 <= dist[u] + 1;
            assert(i > 0);
            assert(queue2[i - 1] == queue[i]);
        }
    }
}

/// The distance recorded for the cell of the first entry is no greater than
/// the place of the cell on any walk from the start.
pub proof fn lemma_records_least(
    g: Grid,
    pos: Point,
    t: Marks,
    queue: Seq<Visit>,
    dist: Map<Point, int>,
    seen: Seq<Point>,
    origin: Point,
)
    requires
        searching(g, pos, t, queue, dist, seen),
        queue.len() > 0,
        !reached(g, t, queue[0].0),
    ensures
        dist_least(
            g,
            pos,
            with_mark(t, queue[0].0, Some(origin)),
            dist.insert(queue[0].0, queue[0].2 as int),
        ),
{
    let (c, from, d) = queue[0];
    let t2 = with_mark(t, c, Some(origin));
    let dist2 = dist.insert(c, d as int);
    assert(visit_ok(g, pos, t, dist, seen.len(), queue[0]));
    lemma_with_mark(g, t, c, Some(origin));
    assert forall|w: Seq<Point>, j: int|
        #![trigger walk_from(g, w, pos), w[j]]
        walk_from(g, w, pos) && 0 <= j < w.len() && reached(g, t2, w[j]) implies dist2[w[j]]
        <= j by {
        if w[j] == c {
            let i = lemma_walk_waits(g, pos, t, queue, dist, seen, w, j);
            assert(queue[0].2 <= queue[i].2);
        } else {
            assert(mark(t2, w[j]) == mark(t, w[j]));
            assert(reached(g, t, w[j]));
        }
    }
}

/// Taking the entry for an unreached cell from the queue, recording it, and
/// queueing its roads keeps what holds while the search runs.
pub proof fn lemma_search_records(
    g: Grid,
    pos: Point,
    t: Marks,
    queue: Seq<Visit>,
    dist: Map<Point, int>,
    seen: Seq<Point>,
)
    requires
        searching(g, pos, t, queue, dist, seen),
        queue.len() > 0,
        !reached(g, t, queue[0].0),
        queue[0].2 < u64::MAX,
    ensures
        ({
            let (c, from, d) = queue[0];
            let origin = match from {
                Some(q) => q,
                None => c,
            };
            let t2 = with_mark(t, c, Some(origin));
            searching(
                g,
                pos,
                t2,
                queue.drop_first() + visits(roads(g, t2, c), c, (d + 1) as u64),
                dist.insert(c, d as int),
                seen.push(c),
            )
        }),
{
    let (c, from, d) = queue[0];
    let origin = match from {
        Some(q) => q,
        None => c,
    };
    let t2 = with_mark(t, c, Some(origin));
    let seen2 = seen.push(c);
    assert(visit_ok(g, pos, t, dist, seen.len(), queue[0]));
    lemma_with_mark(g, t, c, Some(origin));
    lemma_records_seen(g, t, seen, c, origin);
    if seen.len() == 0 {
        assert(queue[0] == (pos, None::<Point>, 0u64));
    } else {
        assert(seen.contains(seen[0]));
        assert(reached(g, t, pos));
        assert(c != pos);
        assert(from is Some);
    }
    assert(seen2[0] == pos);
    assert(seen2.len() == seen.len() + 1);
    lemma_records_marks(g, pos, t, dist, seen.len(), queue[0]);
    lemma_records_queue(g, pos, t, queue, dist, seen.len(), origin);
    lemma_records_sorted(queue, roads(g, t2, c), c);
    lemma_records_frontier(g, t, queue, dist, origin);
    lemma_records_least(g, pos, t, queue, dist, seen, origin);
}

/// When the queue is empty and `target` has not been reached, no walk leads
/// from the start to `target`.
pub proof fn lemma_search_exhausted(
    g: Grid,
    pos: Point,
    t: Marks,
    queue: Seq<Visit>,
    dist: Map<Point, int>,
    seen: Seq<Point>,
    target: Point,
)
    requires
        searching(g, pos, t, queue, dist, seen),
        queue.len() == 0,
        !reached(g, t, target),
    ensures
        forall|w: Seq<Point>| #[trigger] walk_from(g, w, pos) ==> w.last() != target,
{
    assert forall|w: Seq<Point>| #[trigger] walk_from(g, w, pos) implies w.last() != target by {
        if w.last() == target {
            let i = lemma_walk_waits(g, pos, t, queue, dist, seen, w, w.len() - 1);
        }
    }
}

} // verus!
