//! The maze: its grid, its start and end, and the random source that carved
//! it.

use crate::carve::{
    candidates, carvable, carve_done, carve_run, carve_start, carve_step, carved, carving, corner,
    entry_ok, first_road, is_candidate, is_last_road, last_road, lemma_candidates,
    lemma_candidates_by_shape, lemma_carve_keeps, lemma_carving_starts, lemma_ends_unique,
    lemma_marks_keep_order, lemma_run_ends, lemma_skip_keeps, marked, pushes,
};
use crate::errors::{MazeError, MazeResult};
use crate::grid::{
    all_walls, cell, cols, in_grid, is_carve_order, is_tree, kept, lemma_all_walls,
    lemma_cells_bounded,
    lemma_with_cell, open_at, reads_before, rectangular, rows, with_cell, Grid,
};
use crate::map_value::MapValue;
use crate::point::Point;
use crate::random::{randarray, SeededRandom};
use std::collections::VecDeque;
use vstd::prelude::*;

verus! {

/// A maze on a rectangular grid.
#[derive(Debug, Default, PartialEq, Eq, Clone)]
pub struct MazeMap {
    /// The random source; carving advances it.
    pub random: SeededRandom,
    /// The cells, row by row.
    pub map: Vec<Vec<MapValue>>,
    /// Where carving begins: the top-left cell.
    pub inst_st: Point,
    /// The start: the first corridor cell when the grid is read row by row.
    pub st: Point,
    /// The end: the last corridor cell when the grid is read row by row.
    pub ed: Point,
}

/// The rows of cells as a grid.
pub open spec fn grid_of(map: Vec<Vec<MapValue>>) -> Grid {
    Seq::new(map@.len(), |i: int| map@[i]@)
}

impl MazeMap {
    /// The cells as a grid.
    pub open spec fn grid(&self) -> Grid {
        grid_of(self.map)
    }

    /// The grid is rectangular and its dimensions fit in `i32`.
    pub open spec fn shaped(&self) -> bool {
        rectangular(self.grid())
    }

    /// The number of rows.
    pub fn row(&self) -> (r: usize)
        ensures
            r == rows(self.grid()),
    {
        self.map.len()
    }

    /// The number of columns.
    pub fn column(&self) -> (r: usize)
        requires
            self.map@.len() > 0,
        ensures
            r == cols(self.grid()),
    {
        self.map[0].len()
    }

    /// Whether `p` lies outside the grid.
    pub fn is_overrange(&self, p: Point) -> (r: bool)
        requires
            self.map@.len() > 0,
        ensures
            r == !in_grid(self.grid(), p),
    {
        let (i, j) = (p.0, p.1);
        if i < 0 || j < 0 {
            return true;
        }
        if i as usize >= self.row() || j as usize >= self.column() {
            return true;
        }
        return false;
    }

    /// What the cell at `p` holds.
    pub fn cell_at(&self, p: Point) -> (v: MapValue)
        requires
            self.shaped(),
            in_grid(self.grid(), p),
        ensures
            v == cell(self.grid(), p),
    {
        assert(self.grid()[p.0 as int].len() == self.grid()[0].len());
        self.map[p.0 as usize][p.1 as usize]
    }

    /// What the cell at `p` holds; nothing if `p` lies outside the grid.
    pub fn get(&self, p: Point) -> (res: Option<MapValue>)
        requires
            self.shaped(),
        ensures
            res == if in_grid(self.grid(), p) {
                Some(cell(self.grid(), p))
            } else {
                None
            },
    {
        if self.is_overrange(p) {
            None
        } else {
            Some(self.cell_at(p))
        }
    }

    /// Sets the cell at `p` to `v` and gives what it held; does nothing and
    /// gives nothing if `p` lies outside the grid.
    pub fn set(&mut self, p: Point, v: MapValue) -> (res: Option<MapValue>)
        requires
            old(self).shaped(),
        ensures
            final(self).random == old(self).random,
            final(self).inst_st == old(self).inst_st,
            final(self).st == old(self).st,
            final(self).ed == old(self).ed,
            final(self).shaped(),
            if in_grid(old(self).grid(), p) {
                res == Some(cell(old(self).grid(), p)) && final(self).grid() == with_cell(
                    old(self).grid(),
                    p,
                    v,
                )
            } else {
                res is None && final(self).grid() == old(self).grid()
            },
    {
        if self.is_overrange(p) {
            None
        } else {
            let held = self.cell_at(p);
            proof {
                lemma_with_cell(self.grid(), p, v);
            }
            self.set_cell(p, v);
            Some(held)
        }
    }

    /// Sets the cell at `p` to `v`.
    fn set_cell(&mut self, p: Point, v: MapValue)
        requires
            old(self).shaped(),
            in_grid(old(self).grid(), p),
        ensures
            final(self).grid() == with_cell(old(self).grid(), p, v),
            final(self).random == old(self).random,
            final(self).inst_st == old(self).inst_st,
            final(self).st == old(self).st,
            final(self).ed == old(self).ed,
    {
        assert(self.grid()[p.0 as int].len() == self.grid()[0].len());
        self.map[p.0 as usize][p.1 as usize] = v;
        assert(self.grid() =~~= with_cell(old(self).grid(), p, v));
    }

    /// The neighbours of `p` in the grid, other than `lp`.
    fn init_get_walls(&self, p: Point, lp: Point) -> (result: Vec<Point>)
        requires
            self.shaped(),
            in_grid(self.grid(), p),
        ensures
            result@ == candidates(self.grid(), p, lp),
    {
        let mut result: Vec<Point> = Vec::new();
        let around = p.get_range_vec();
        let ghost keep = is_candidate(self.grid(), lp);
        let mut i: usize = 0;
        while i < around.len()
            invariant
                i <= around@.len(),
                around@ == p.neighbours(),
                self.map@.len() > 0,
                keep == is_candidate(self.grid(), lp),
                result@ == kept(around@, i as int, keep),
            decreases around@.len() - i,
        {
            let point = around[i];
            i += 1;
            if self.is_overrange(point) {
                continue ;
            }
            if point == lp {
                continue ;
            }
            result.push(point);
        }
        result
    }

    /// Whether `p`, reached from `lp`, may be carved.
    fn init_check_walls(&self, p: Point, lp: Point) -> (r: bool)
        requires
            self.shaped(),
            in_grid(self.grid(), p),
        ensures
            r == carvable(self.grid(), p, lp),
    {
        let temp = self.init_get_walls(p, lp);
        if temp.len() == 0 {
            return false;
        }
        proof {
            lemma_candidates(self.grid(), p, lp);
        }
        let mut i: usize = 0;
        while i < temp.len()
            invariant
                i <= temp@.len(),
                self.shaped(),
                temp@ == candidates(self.grid(), p, lp),
                forall|k: int| 0 <= k < temp@.len() ==> in_grid(self.grid(), #[trigger] temp@[k]),
                forall|k: int| 0 <= k < i ==> cell(self.grid(), #[trigger] temp@[k]) == MapValue::Wall,
            decreases temp@.len() - i,
        {
            let t = temp[i];
            if self.cell_at(t) != MapValue::Wall {
                return false;
            }
            i += 1;
        }
        true
    }

    /// The maze is as generation leaves it: at least two rows and two
    /// columns, the start and the end marked on two different cells and
    /// nowhere else, every other cell a wall or a corridor, and the open cells a
    /// tree.
    pub open spec fn wf(&self) -> bool {
        let g = self.grid();
        &&& rectangular(g)
        &&& rows(g) >= 2
        &&& cols(g) >= 2
        &&& self.inst_st == corner()
        &&& self.st == corner()
        &&& self.st != self.ed
        &&& in_grid(g, self.st)
        &&& in_grid(g, self.ed)
        &&& cell(g, self.st) == MapValue::St
        &&& cell(g, self.ed) == MapValue::Ed
        &&& forall|p: Point|
            in_grid(g, p) && p != self.st && p != self.ed ==> #[trigger] cell(g, p)
                == MapValue::Wall || cell(g, p) == MapValue::Road
        &&& is_tree(g)
    }

    /// The maze is the one that carving a grid of `r` rows and `c` columns
    /// with the random source `rng` gives: the grid in which the carve ends,
    /// with start and end marked, and the random source as the carve left it.
    pub open spec fn generated_from(&self, r: int, c: int, rng: SeededRandom) -> bool {
        let end = carved(carve_start(r, c, rng));
        &&& self.grid() == marked(end.grid)
        &&& self.random == end.rng
        &&& self.inst_st == corner()
        &&& self.st == first_road(end.grid)
        &&& self.ed == last_road(end.grid)
    }

    /// Carves the maze into a grid of walls, then marks its start and end.
    ///
    /// The carve is depth-first with an explicit stack. It begins at the
    /// top-left cell. A cell taken from the stack is carved if it has a
    /// neighbour in the grid besides the cell it was reached from and all such
    /// neighbours are still walls; these neighbours are then pushed in shuffled
    /// order.
    fn init_map(&mut self) -> (res: MazeResult<()>)
        requires
            old(self).shaped(),
            rows(old(self).grid()) >= 2,
            cols(old(self).grid()) >= 2,
            forall|p: Point|
                in_grid(old(self).grid(), p) ==> #[trigger] cell(old(self).grid(), p)
                    == MapValue::Wall,
            old(self).inst_st == corner(),
        ensures
            res is Ok,
            final(self).generated_from(
                rows(old(self).grid()),
                cols(old(self).grid()),
                old(self).random,
            ),
            final(self).wf(),
            rows(final(self).grid()) == rows(old(self).grid()),
            cols(final(self).grid()) == cols(old(self).grid()),
    {
        let ghost r = rows(self.grid());
        let ghost c = cols(self.grid());
        let ghost cells = r * c;
        let ghost start = carve_start(r, c, self.random);
        let mut stack: VecDeque<(Point, Point, u64)> = VecDeque::new();
        let mut p = self.inst_st;
        let mut lp = Point(-1, -1);
        let mut step: u64 = 0;
        stack.push_back((p, lp, step));
        let ghost mut order = Seq::<Point>::empty();
        let ghost mut steps: nat = 0;
        proof {
            let g = self.grid();
            assert forall|i: int| 0 <= i < r implies #[trigger] g[i] =~= all_walls(r, c)[i] by {
                assert(g[i].len() == c);
                assert forall|j: int| 0 <= j < c implies g[i][j] == MapValue::Wall by {
                    let q = Point(i as i32, j as i32);
                    assert(in_grid(g, q));
                    assert(cell(g, q) == MapValue::Wall);
                }
            }
            assert(g =~= all_walls(r, c));
            lemma_carving_starts(g);
            assert(stack@ =~= start.stack);
            assert(0 <= cells <= 0x7fff_ffff * 0x7fff_ffff) by (nonlinear_arith)
                requires
                    cells == r * c,
                    0 <= r <= 0x7fff_ffff,
                    0 <= c <= 0x7fff_ffff,
            ;
        }
        while stack.len() > 0
            invariant
                carving(self.grid(), stack@, order),
                rows(self.grid()) == r,
                cols(self.grid()) == c,
                cells == r * c,
                cells <= 0x7fff_ffff * 0x7fff_ffff,
                order.len() <= cells,
                self.grid() == carve_run(start, steps).grid,
                stack@ == carve_run(start, steps).stack,
                self.random == carve_run(start, steps).rng,
                self.inst_st == corner(),
            decreases cells - order.len(), stack@.len(),
        {
            let ghost g0 = self.grid();
            let ghost stack0 = stack@;
            let ghost before = carve_run(start, steps);
            let top = stack.pop_back().unwrap();
            p = top.0;
            lp = top.1;
            step = top.2;
            proof {
                assert(top == stack0.last());
                assert(stack@ =~= stack0.drop_last());
                assert(entry_ok(g0, order, stack0[stack0.len() - 1]));
                assert(carve_run(start, steps + 1) == carve_step(before));
            }
            if self.init_check_walls(p, lp) {
                self.set_cell(p, MapValue::Road);
                let mut around_walls = self.init_get_walls(p, lp);
                proof {
                    lemma_with_cell(g0, p, MapValue::Road);
                    lemma_candidates_by_shape(g0, self.grid(), p, lp);
                }
                if !around_walls.is_empty() {
                    let ghost c0 = around_walls@;
                    around_walls = randarray(&mut self.random, &around_walls);
                    proof {
                        lemma_candidates(g0, p, lp);
                        let perm = around_walls@;
                        c0.lemma_multiset_has_no_duplicates();
                        perm.lemma_multiset_has_no_duplicates_conv();
                        assert forall|k: int| 0 <= k < perm.len() implies c0.contains(
                            #[trigger] perm[k],
                        ) by {
                            vstd::seq_lib::to_multiset_contains(perm, perm[k]);
                            vstd::seq_lib::to_multiset_contains(c0, perm[k]);
                            assert(perm.contains(perm[k]));
                        }
                        lemma_carve_keeps(g0, stack0, order, perm);
                        order = order.push(p);
                        assert forall|k: int| 0 <= k < order.len() implies 0 <= (
                        #[trigger] order[k]).0 < r && 0 <= order[k].1 < c by {
                            assert(order.contains(order[k]));
                        }
                        lemma_cells_bounded(r, c, order);
                    }
                    let ghost rest = stack@;
                    let mut k: usize = 0;
                    while k < around_walls.len()
                        invariant
                            k <= around_walls@.len(),
                            step < u64::MAX,
                            stack@ == rest + pushes(around_walls@, p, (step + 1) as u64).take(
                                k as int,
                            ),
                        decreases around_walls@.len() - k,
                    {
                        let wall = around_walls[k];
                        stack.push_back((wall, p, step + 1));
                        k += 1;
                        assert(stack@ =~= rest + pushes(around_walls@, p, (step + 1) as u64).take(
                            k as int,
                        ));
                    }
                    proof {
                        let added = pushes(around_walls@, p, (step + 1) as u64);
                        assert(added.take(added.len() as int) =~= added);
                    }
                }
            } else {
                proof {
                    lemma_skip_keeps(g0, stack0, order);
                }
            }
            proof {
                steps = steps + 1;
            }
        }
        proof {
            assert(carve_done(start, steps));
            lemma_run_ends(start, steps);
            assert(order[0] == corner() && order.contains(order[0]));
            assert(order.contains(order[1]) && order[1] != order[0]);
            assert(open_at(self.grid(), order[1]));
        }
        let ghost carved_grid = self.grid();
        let res = self.init_mark();
        proof {
            lemma_ends_unique(carved_grid, self.st, self.st);
            assert(open_at(carved_grid, self.st) && open_at(carved_grid, self.ed));
            lemma_marks_keep_order(carved_grid, self.st, self.ed, order);
            lemma_with_cell(carved_grid, self.st, MapValue::St);
            lemma_with_cell(with_cell(carved_grid, self.st, MapValue::St), self.ed, MapValue::Ed);
            assert(is_carve_order(self.grid(), order));
            let g = self.grid();
            let g1 = with_cell(carved_grid, self.st, MapValue::St);
            assert(g == with_cell(g1, self.ed, MapValue::Ed));
            assert(rectangular(g));
            assert(cell(g, self.ed) == MapValue::Ed);
            assert(cell(g, self.st) == MapValue::St) by {
                assert(cell(g1, self.st) == MapValue::St);
            }
            assert forall|q: Point| in_grid(g, q) && q != self.st && q != self.ed implies #[trigger] cell(
                g,
                q,
            ) == MapValue::Wall || cell(g, q) == MapValue::Road by {
                assert(cell(g, q) == cell(g1, q));
                assert(cell(g1, q) == cell(carved_grid, q));
            }
            assert(is_tree(g));
        }
        res
    }

    /// The error for a dimension below two: `Init` with its reason.
    pub open spec fn refusal(e: MazeError) -> bool {
        e matches MazeError::Init(why) && why@ == "行和列不能小于2"@
    }

    /// A grid of `row` rows and `column` columns, every cell a wall.
    fn wall_rows(row: usize, column: usize) -> (map: Vec<Vec<MapValue>>)
        ensures
            grid_of(map) == all_walls(row as int, column as int),
    {
        let mut map: Vec<Vec<MapValue>> = Vec::new();
        let mut i: usize = 0;
        while i < row
            invariant
                i <= row,
                map@.len() == i,
                forall|k: int|
                    0 <= k < i ==> (#[trigger] map@[k])@ == Seq::new(
                        column as nat,
                        |j: int| MapValue::Wall,
                    ),
            decreases row - i,
        {
            let mut line: Vec<MapValue> = Vec::new();
            let mut j: usize = 0;
            while j < column
                invariant
                    j <= column,
                    line@.len() == j,
                    forall|k: int| 0 <= k < j ==> #[trigger] line@[k] == MapValue::Wall,
                decreases column - j,
            {
                line.push(MapValue::Wall);
                j += 1;
            }
            assert(line@ =~= Seq::new(column as nat, |j: int| MapValue::Wall));
            map.push(line);
            i += 1;
        }
        assert(grid_of(map) =~= all_walls(row as int, column as int));
        map
    }

    /// A maze of `row` rows and `column` columns, carved with `random`.
    ///
    /// Fails with `Init` if either dimension is below two.
    pub fn new_with_random(row: i32, column: i32, random: SeededRandom) -> (res: MazeResult<
        MazeMap,
    >)
        ensures
            match res {
                Ok(m) => {
                    &&& row >= 2 && column >= 2
                    &&& m.generated_from(row as int, column as int, random)
                    &&& m.wf()
                    &&& rows(m.grid()) == row
                    &&& cols(m.grid()) == column
                },
                Err(e) => (row < 2 || column < 2) && Self::refusal(e),
            },
    {
        if row < 2 || column < 2 {
            return Err(MazeError::Init("行和列不能小于2".to_owned()));
        }
        let mut self_ = MazeMap {
            random,
            map: Self::wall_rows(row as usize, column as usize),
            inst_st: Point::default(),
            st: Point::default(),
            ed: Point::default(),
        };
        proof {
            lemma_all_walls(row as int, column as int);
        }
        match self_.init_map() {
            Ok(()) => Ok(self_),
            Err(e) => Err(e),
        }
    }

    /// A maze of `row` rows and `column` columns, carved with the default
    /// random source.
    ///
    /// Fails with `Init` if either dimension is below two.
    pub fn new(row: i32, column: i32) -> (res: MazeResult<MazeMap>)
        ensures
            match res {
                Ok(m) => {
                    &&& row >= 2 && column >= 2
                    &&& exists|random: SeededRandom|
                        #![trigger m.generated_from(row as int, column as int, random)]
                        {
                            &&& random.seed@ == Seq::new(32, |i: int| 0u8)
                            &&& random.stream == 0
                            &&& random.word_pos == 0
                            &&& m.generated_from(row as int, column as int, random)
                        }
                    &&& m.wf()
                    &&& rows(m.grid()) == row
                    &&& cols(m.grid()) == column
                },
                Err(e) => (row < 2 || column < 2) && Self::refusal(e),
            },
    {
        Self::new_with_random(row, column, SeededRandom::default())
    }

    /// Carves this maze anew, with `row` rows and `column` columns and with
    /// `random` in place of its random source.
    ///
    /// Fails with `Init`, and changes nothing, if either dimension is below
    /// two.
    pub fn generate_with_new_random(&mut self, row: i32, column: i32, random: SeededRandom) -> (res:
        MazeResult<()>)
        ensures
            match res {
                Ok(_) => {
                    &&& row >= 2 && column >= 2
                    &&& final(self).generated_from(row as int, column as int, random)
                    &&& final(self).wf()
                    &&& rows(final(self).grid()) == row
                    &&& cols(final(self).grid()) == column
                },
                Err(e) => {
                    &&& row < 2 || column < 2
                    &&& Self::refusal(e)
                    &&& *final(self) == *old(self)
                },
            },
    {
        if row < 2 || column < 2 {
            return Err(MazeError::Init("行和列不能小于2".to_owned()));
        }
        self.random = random;
        self.map = Self::wall_rows(row as usize, column as usize);
        self.inst_st = Point::default();
        self.st = Point::default();
        self.ed = Point::default();
        proof {
            lemma_all_walls(row as int, column as int);
        }
        self.init_map()
    }

    /// Carves this maze anew, with `row` rows and `column` columns, going on
    /// with its own random source.
    ///
    /// Fails with `Init`, and changes nothing, if either dimension is below
    /// two.
    pub fn generate(&mut self, row: i32, column: i32) -> (res: MazeResult<()>)
        ensures
            match res {
                Ok(_) => {
                    &&& row >= 2 && column >= 2
                    &&& final(self).generated_from(row as int, column as int, old(self).random)
                    &&& final(self).wf()
                    &&& rows(final(self).grid()) == row
                    &&& cols(final(self).grid()) == column
                },
                Err(e) => {
                    &&& row < 2 || column < 2
                    &&& Self::refusal(e)
                    &&& *final(self) == *old(self)
                },
            },
    {
        if row < 2 || column < 2 {
            return Err(MazeError::Init("行和列不能小于2".to_owned()));
        }
        self.map = Self::wall_rows(row as usize, column as usize);
        self.inst_st = Point::default();
        self.st = Point::default();
        self.ed = Point::default();
        proof {
            lemma_all_walls(row as int, column as int);
        }
        self.init_map()
    }

    /// Carves this maze anew with its own dimensions, going on with its own
    /// random source.
    pub fn re_generate(&mut self) -> (res: MazeResult<()>)
        requires
            old(self).shaped(),
        ensures
            match res {
                Ok(_) => {
                    &&& rows(old(self).grid()) >= 2 && cols(old(self).grid()) >= 2
                    &&& final(self).generated_from(
                        rows(old(self).grid()),
                        cols(old(self).grid()),
                        old(self).random,
                    )
                    &&& final(self).wf()
                    &&& rows(final(self).grid()) == rows(old(self).grid())
                    &&& cols(final(self).grid()) == cols(old(self).grid())
                },
                Err(e) => {
                    &&& rows(old(self).grid()) < 2 || cols(old(self).grid()) < 2
                    &&& Self::refusal(e)
                    &&& *final(self) == *old(self)
                },
            },
    {
        self.generate(self.row() as i32, self.column() as i32)
    }

    /// Marks the first corridor cell as the start and the last as the end.
    ///
    /// Both scans run together, one from the top-left forwards and one from
    /// the bottom-right backwards, and stop once both have found their cell.
    fn init_mark(&mut self) -> (res: MazeResult<()>)
        requires
            old(self).shaped(),
            forall|p: Point|
                in_grid(old(self).grid(), p) ==> #[trigger] cell(old(self).grid(), p)
                    == MapValue::Wall || cell(old(self).grid(), p) == MapValue::Road,
            cell(old(self).grid(), corner()) == MapValue::Road,
            exists|q: Point|
                in_grid(old(self).grid(), q) && q != corner() && #[trigger] cell(
                    old(self).grid(),
                    q,
                ) == MapValue::Road,
        ensures
            res is Ok,
            final(self).grid() == marked(old(self).grid()),
            final(self).st == first_road(old(self).grid()),
            final(self).ed == last_road(old(self).grid()),
            final(self).st == corner(),
            final(self).st != final(self).ed,
            is_last_road(old(self).grid(), final(self).ed),
            final(self).random == old(self).random,
            final(self).inst_st == old(self).inst_st,
    {
        let ghost g0 = self.grid();
        let ghost other = choose|q: Point|
            in_grid(g0, q) && q != corner() && #[trigger] cell(g0, q) == MapValue::Road;
        let height = self.row();
        let width = self.column();
        let mut st_get = false;
        let mut ed_get = false;
        let mut i: usize = 0;
        while i < height
            invariant
                i <= height,
                height == rows(g0),
                width == cols(g0),
                rectangular(g0),
                self.shaped(),
                cell(g0, corner()) == MapValue::Road,
                in_grid(g0, other) && other != corner() && cell(g0, other) == MapValue::Road,
                scanned(g0, *self, st_get, ed_get, i as int, 0),
                i == height ==> st_get && ed_get,
                self.random == old(self).random,
                self.inst_st == old(self).inst_st,
            ensures
                st_get && ed_get,
            decreases height - i,
        {
            let mut j: usize = 0;
            while j < width
                invariant
                    i < height,
                    j <= width,
                    height == rows(g0),
                    width == cols(g0),
                    rectangular(g0),
                    self.shaped(),
                    cell(g0, corner()) == MapValue::Road,
                    in_grid(g0, other) && other != corner() && cell(g0, other) == MapValue::Road,
                    scanned(g0, *self, st_get, ed_get, i as int, j as int),
                    self.random == old(self).random,
                    self.inst_st == old(self).inst_st,
                ensures
                    (st_get && ed_get) || j == width,
                decreases width - j,
            {
                if st_get && ed_get {
                    break ;
                }
                let here = Point(i as i32, j as i32);
                if !st_get && self.cell_at(here) == MapValue::Road {
                    self.st = here;
                    self.set_cell(here, MapValue::St);
                    st_get = true;
                    proof {
                        lemma_with_cell(g0, here, MapValue::St);
                    }
                }
                let ed_idx = Point((height - 1 - i) as i32, (width - 1 - j) as i32);
                proof {
                    lemma_with_cell(g0, corner(), MapValue::St);
                    if !ed_get && ed_idx == corner() {
                        assert(reads_before(ed_idx, other));
                    }
                }
                if !ed_get && self.cell_at(ed_idx) == MapValue::Road {
                    self.ed = ed_idx;
                    self.set_cell(ed_idx, MapValue::Ed);
                    ed_get = true;
                }
                j += 1;
            }
            if st_get && ed_get {
                break ;
            }
            proof {
                let back = Point((height - 1 - i) as i32, (width - 1 - j) as i32);
                let next = Point((height - 2 - i) as i32, (width - 1) as i32);
                assert forall|q: Point| in_grid(g0, q) && reads_before(next, q) implies #[trigger] cell(
                    g0,
                    q,
                ) != MapValue::Road by {
                    assert(reads_before(back, q));
                }
                if i + 1 == height && !ed_get {
                    assert(reads_before(next, other));
                }
            }
            i += 1;
        }
        proof {
            lemma_ends_unique(g0, self.st, self.st);
            lemma_ends_unique(g0, self.ed, self.ed);
        }
        Ok(())
    }
}

/// What holds while the two scans of `init_mark` run, when the forward scan
/// stands at row `i`, column `j`, and the backward scan at the mirrored cell.
pub open spec fn scanned(g0: Grid, m: MazeMap, st_get: bool, ed_get: bool, i: int, j: int) -> bool {
    let back = Point((rows(g0) - 1 - i) as i32, (cols(g0) - 1 - j) as i32);
    &&& (i > 0 || j > 0) ==> st_get
    &&& st_get ==> m.st == corner()
    &&& ed_get ==> st_get && is_last_road(g0, m.ed) && m.ed != corner()
    &&& !ed_get ==> forall|q: Point|
        in_grid(g0, q) && reads_before(back, q) ==> #[trigger] cell(g0, q) != MapValue::Road
    &&& m.grid() == if ed_get {
        with_cell(with_cell(g0, m.st, MapValue::St), m.ed, MapValue::Ed)
    } else if st_get {
        with_cell(g0, m.st, MapValue::St)
    } else {
        g0
    }
}

} // verus!
