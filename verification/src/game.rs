//! What a game on a maze is: a maze, an agent, and the rules by which the
//! agent moves.

use crate::errors::{MazeError, MazeResult};
use crate::game_value::GameValue;
use crate::grid::{cell, cols, in_grid, open_at, rows};
use crate::map_value::MapValue;
use crate::maze_map::MazeMap;
use crate::move_status::MoveStatus;
use crate::movement::{continuation, is_run_from, run_of};
use crate::player::Player;
use crate::point::Point;
use crate::random::SeededRandom;
use crate::solve::{is_shortest_walk, no_walk};
use vstd::prelude::*;

verus! {

/// One display value for each kind of cell and overlay.
#[derive(Debug, PartialEq, Eq, Hash, Clone, Copy, Default)]
pub struct GameValueMap<T> {
    pub empty: T,
    pub moved: T,
    pub solve: T,
    pub wall: T,
    pub road: T,
    pub border: T,
    pub player: T,
    pub st: T,
    pub ed: T,
}

/// Tags that have a display value.
pub trait ToGameValue {
    /// The display value of this tag.
    fn to<'a, U>(&self, map: &'a GameValueMap<U>) -> (r: &'a U);
}

/// The display value of a cell.
pub open spec fn shown_cell<U>(v: MapValue, map: GameValueMap<U>) -> U {
    match v {
        MapValue::Empty => map.empty,
        MapValue::Wall => map.wall,
        MapValue::Road => map.road,
        MapValue::Border => map.border,
        MapValue::St => map.st,
        MapValue::Ed => map.ed,
    }
}

/// The display value of an overlay.
pub open spec fn shown_overlay<U>(v: GameValue, map: GameValueMap<U>) -> U {
    match v {
        GameValue::Empty => map.empty,
        GameValue::Move => map.moved,
        GameValue::Solve => map.solve,
    }
}

impl ToGameValue for MapValue {
    fn to<'a, U>(&self, map: &'a GameValueMap<U>) -> (r: &'a U)
        ensures
            *r == shown_cell(*self, *map),
    {
        match self {
            MapValue::Empty => &map.empty,
            MapValue::Wall => &map.wall,
            MapValue::Road => &map.road,
            MapValue::Border => &map.border,
            MapValue::St => &map.st,
            MapValue::Ed => &map.ed,
        }
    }
}

impl ToGameValue for GameValue {
    fn to<'a, U>(&self, map: &'a GameValueMap<U>) -> (r: &'a U)
        ensures
            *r == shown_overlay(*self, *map),
    {
        match self {
            GameValue::Empty => &map.empty,
            GameValue::Move => &map.moved,
            GameValue::Solve => &map.solve,
        }
    }
}

/// What a game holds: a maze and an agent.
pub trait GameField: Sized {
    /// The maze of the game.
    spec fn field(&self) -> MazeMap;

    /// The agent of the game.
    spec fn agent(&self) -> Player;

    fn map(&self) -> (m: &MazeMap)
        ensures
            *m == self.field(),
    ;

    fn player(&self) -> (p: &Player)
        ensures
            *p == self.agent(),
    ;

    fn row(&self) -> (r: usize)
        ensures
            r == rows(self.field().grid()),
    {
        self.map().row()
    }

    fn column(&self) -> (r: usize)
        requires
            self.field().map@.len() > 0,
        ensures
            r == cols(self.field().grid()),
    {
        self.map().column()
    }

    fn random(&self) -> (r: &SeededRandom)
        ensures
            *r == self.field().random,
    {
        &self.map().random
    }
}

/// The rules of a game. What a game does once a move or a placement has been
/// found good is its own: `after_move` and `after_move_player` say so.
pub trait Game: GameField {
    /// What `after_move` makes of the game `pre`, given the run `plan` of
    /// `step` steps: the game `post` and the result `res`.
    spec fn moved(
        pre: Self,
        mv: MoveStatus,
        plan: Seq<Point>,
        step: usize,
        post: Self,
        res: MazeResult<Vec<Point>>,
    ) -> bool;

    /// What `after_move_player` makes of the game `pre`, given the cell
    /// `pos`: the game `post` and the result `res`.
    spec fn placed(pre: Self, pos: Point, post: Self, res: MazeResult<()>) -> bool;

    /// The cell a corridor goes on to from `p` for one who came from `lp`.
    fn move_find_road(&mut self, p: Point, lp: Point) -> (res: MazeResult<Option<Point>>)
        requires
            old(self).field().shaped(),
            p.can_step(),
        ensures
            res matches Ok(next) && next == continuation(old(self).field().grid(), p, lp),
            *final(self) == *old(self),
    {
        Ok(self.map().find_road(p, lp))
    }

    /// Moves the agent in direction `mv`, through the corridor.
    ///
    /// Fails with `GameWin` if the agent stands on the end, and with
    /// `CanNotMove` if the next cell lies outside the grid or is a wall; the
    /// game is then as it was. Otherwise the run of the move is handed to
    /// `after_move`.
    fn move_to(&mut self, mv: MoveStatus) -> (res: MazeResult<Vec<Point>>)
        requires
            old(self).field().walkable(),
            mv.fits(old(self).agent().pos),
        ensures
            ({
                let m = old(self).field();
                let from = old(self).agent().pos;
                let to = mv.next(from);
                let plan = run_of(m.grid(), m.ed, from, to);
                if from == m.ed {
                    (res matches Err(e) && e is GameWin) && *final(self) == *old(self)
                } else if !open_at(m.grid(), to) {
                    (res matches Err(e) && e is CanNotMove) && *final(self) == *old(self)
                } else {
                    is_run_from(m.grid(), m.ed, plan, from, to) && Self::moved(
                        *old(self),
                        mv,
                        plan,
                        (plan.len() - 1) as usize,
                        *final(self),
                        res,
                    )
                }
            }),
    {
        match self.is_win() {
            Ok(true) => {
                return Err(MazeError::GameWin);
            },
            Ok(false) => {},
            Err(e) => {
                return Err(e);
            },
        }
        let from = self.player().pos;
        match self.map().plan_move(from, mv) {
            Err(e) => Err(e),
            Ok(move_list) => {
                let step = move_list.len() - 1;
                self.after_move(mv, move_list, step)
            },
        }
    }

    /// What the game does with a run: `move_list` holds the cells passed,
    /// the first being where the agent stood, and `step` is their number
    /// less one.
    fn after_move(&mut self, mv: MoveStatus, move_list: Vec<Point>, step: usize) -> (res:
        MazeResult<Vec<Point>>)
        requires
            move_list@.len() == step + 1,
        ensures
            Self::moved(*old(self), mv, move_list@, step, *final(self), res),
    ;

    /// What the game does with a cell that the agent may be placed on.
    fn after_move_player(&mut self, pos: Point) -> (res: MazeResult<()>)
        ensures
            Self::placed(*old(self), pos, *final(self), res),
    ;

    /// Places the agent on `pos`.
    ///
    /// Fails with `CanNotMove` if `pos` lies outside the grid or is no
    /// corridor, start or end; the game is then as it was. Otherwise `pos` is
    /// handed to `after_move_player`.
    fn move_player(&mut self, pos: Point) -> (res: MazeResult<()>)
        requires
            old(self).field().shaped(),
        ensures
            ({
                let g = old(self).field().grid();
                if in_grid(g, pos) && cell(g, pos).landable() {
                    Self::placed(*old(self), pos, *final(self), res)
                } else {
                    (res matches Err(e) && e is CanNotMove) && *final(self) == *old(self)
                }
            }),
    {
        if self.map().is_overrange(pos) {
            return Err(MazeError::CanNotMove);
        }
        let value = self.map().cell_at(pos);
        if value != MapValue::Road && value != MapValue::St && value != MapValue::Ed {
            return Err(MazeError::CanNotMove);
        }
        self.after_move_player(pos)
    }

    /// A shortest walk from `pos` to the end of the maze.
    fn solve(&self, pos: Point) -> (res: MazeResult<Vec<Point>>)
        requires
            self.field().shaped(),
        ensures
            match res {
                Ok(path) => if pos == self.field().ed {
                    path@ == seq![pos]
                } else {
                    is_shortest_walk(self.field().grid(), path@, pos, self.field().ed)
                },
                Err(e) => e is QueueEmpty && pos != self.field().ed && no_walk(
                    self.field().grid(),
                    pos,
                    self.field().ed,
                ),
            },
    {
        self.map().solve(pos)
    }

    /// Whether the agent stands on the end of the maze.
    fn is_win(&self) -> (res: MazeResult<bool>)
        ensures
            res matches Ok(won) && won == (self.field().ed == self.agent().pos),
    {
        Ok(self.map().ed == self.player().pos)
    }
}

} // verus!
