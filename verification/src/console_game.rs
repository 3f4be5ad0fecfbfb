//! A game played by commands: its state, what each command does to it, and
//! the text that shows it.

use crate::errors::{MazeError, MazeResult};
use crate::game::{Game, GameField, GameValueMap};
use crate::grid::open_at;
use crate::maze_map::MazeMap;
use crate::move_status::MoveStatus;
use crate::movement::{is_run_from, lemma_run_cell_open, lemma_tree_is_forest, run_of};
use crate::player::Player;
use crate::point::Point;
use crate::random::SeededRandom;
use vstd::prelude::*;

verus! {

/// A command.
#[derive(Debug)]
pub enum Cli {
    Up,
    Down,
    Left,
    Right,
    Restart,
    New(SubcommandNew),
    Solve,
    UnSolve,
    Quit,
    Display,
}

/// What a new game is made with: its dimensions and, if given, the seed of
/// its random source.
#[derive(Debug)]
pub struct SubcommandNew {
    pub row: i32,
    pub column: i32,
    pub seed: Option<u64>,
}

/// How a command went, and with it what is to be shown.
#[derive(Debug, PartialEq, Eq)]
pub enum RunOnceResult {
    /// Done: show the game.
    Done,
    /// The line could not be split into words.
    InValid,
    /// The move is not possible.
    CanNotMove,
    /// The game is to end.
    Quit,
    /// The command failed.
    Error(String),
    /// The words are no command.
    CmdError(String),
    /// Show the game.
    Display,
}

/// A game played by commands.
#[derive(Debug, PartialEq, Eq, Clone)]
pub struct ConsoleGame {
    pub map: MazeMap,
    pub player: Player,
    pub is_move: bool,
    pub value_map: GameValueMap<String>,
    pub will_solve: bool,
    pub solve_list: Option<Vec<Point>>,
    pub move_list: Option<Vec<Point>>,
}

/// The words that `shlex::split` splits `line` into, by the rules of a POSIX
/// shell; none where `line` is erroneous, as with a quote left open.
pub uninterp spec fn shlex_words(line: Seq<char>) -> Option<Seq<Seq<char>>>;

/// `shlex::split`: the words of `line`, or none if `line` is erroneous.
#[verifier::external_body]
fn shlex_split(line: &str) -> (r: Option<Vec<String>>)
    ensures
        match r {
            Some(words) => shlex_words(line@) == Some(words.deep_view()),
            None => shlex_words(line@) is None,
        },
{
    shlex::split(line)
}

impl ConsoleGame {
    /// The game is sound: its maze is as generation leaves it, and its agent
    /// stands on an open cell.
    pub open spec fn wf(&self) -> bool {
        self.map.wf() && open_at(self.map.grid(), self.player.pos)
    }

    /// The display values of a console: one character each.
    pub open spec fn console_values(v: GameValueMap<String>) -> bool {
        &&& v.empty@ == "?"@
        &&& v.moved@ == "."@
        &&& v.solve@ == "#"@
        &&& v.wall@ == "O"@
        &&& v.road@ == " "@
        &&& v.border@ == "O"@
        &&& v.player@ == "P"@
        &&& v.st@ == "S"@
        &&& v.ed@ == "E"@
    }

    /// A game just begun on `map`: the agent `"player"` at the start with
    /// both counters at zero, nothing moved, nothing solved.
    pub open spec fn begun(&self) -> bool {
        &&& self.player.pos == self.map.st
        &&& self.player.name@ == "player"@
        &&& self.player.step == 0
        &&& self.player.move_times == 0
        &&& !self.is_move
        &&& self.move_list is None
        &&& self.solve_list is None
    }

    fn new_value_map() -> (v: GameValueMap<String>)
        ensures
            Self::console_values(v),
    {
        GameValueMap {
            empty: "?".to_owned(),
            moved: ".".to_owned(),
            solve: "#".to_owned(),
            wall: "O".to_owned(),
            road: " ".to_owned(),
            border: "O".to_owned(),
            player: "P".to_owned(),
            st: "S".to_owned(),
            ed: "E".to_owned(),
        }
    }

    /// A game on a new maze of `row` rows and `column` columns, carved with a
    /// random source seeded by the system.
    ///
    /// Fails with `Init` if the system gives no seed or if either dimension is
    /// below two.
    pub fn new(row: i32, column: i32) -> (res: MazeResult<ConsoleGame>)
        ensures
            row < 2 || column < 2 ==> res is Err,
            match res {
                Ok(game) => {
                    &&& row >= 2 && column >= 2
                    &&& exists|random: SeededRandom| #[trigger]
                        game.map.generated_from(row as int, column as int, random)
                    &&& game.wf()
                    &&& game.begun()
                    &&& !game.will_solve
                    &&& Self::console_values(game.value_map)
                },
                Err(e) => e is Init,
            },
    {
        let random = match SeededRandom::from_thread_rng() {
            Ok(r) => r,
            Err(e) => {
                return Err(MazeError::Init(e));
            },
        };
        Self::new_with_random(row, column, random)
    }

    /// A game on a new maze of `row` rows and `column` columns, carved with
    /// `random`.
    ///
    /// Fails with `Init` if either dimension is below two.
    pub fn new_with_random(row: i32, column: i32, random: SeededRandom) -> (res: MazeResult<
        ConsoleGame,
    >)
        ensures
            match res {
                Ok(game) => {
                    &&& row >= 2 && column >= 2
                    &&& game.map.generated_from(row as int, column as int, random)
                    &&& game.wf()
                    &&& game.begun()
                    &&& !game.will_solve
                    &&& Self::console_values(game.value_map)
                },
                Err(e) => (row < 2 || column < 2) && MazeMap::refusal(e),
            },
    {
        let map = match MazeMap::new_with_random(row, column, random) {
            Ok(map) => map,
            Err(e) => {
                return Err(e);
            },
        };
        let player = Player::new(map.st, "player");
        Ok(
            ConsoleGame {
                map,
                player,
                is_move: false,
                value_map: Self::new_value_map(),
                will_solve: false,
                solve_list: None,
                move_list: None,
            },
        )
    }

    fn reset(&mut self)
        ensures
            !final(self).is_move,
            final(self).move_list is None,
            final(self).solve_list is None,
            final(self).map == old(self).map,
            final(self).player == old(self).player,
            final(self).value_map == old(self).value_map,
            final(self).will_solve == old(self).will_solve,
    {
        self.is_move = false;
        self.move_list = None;
        self.solve_list = None;
    }

    /// Puts the agent back on the start and forgets the last move and the
    /// solution. The counters stay.
    pub fn restart(&mut self)
        ensures
            final(self).player.pos == old(self).map.st,
            final(self).player.name == old(self).player.name,
            final(self).player.step == old(self).player.step,
            final(self).player.move_times == old(self).player.move_times,
            final(self).move_list is None,
            final(self).solve_list is None,
            final(self).map == old(self).map,
            final(self).is_move == old(self).is_move,
            final(self).value_map == old(self).value_map,
            final(self).will_solve == old(self).will_solve,
            old(self).map.wf() ==> final(self).wf(),
    {
        self.player.pos = self.map.st;
        self.move_list = None;
        self.solve_list = None;
    }

    /// Begins a new game on a maze of `row` rows and `column` columns, carved
    /// with the random source of the old maze.
    ///
    /// Fails with `Init`, and changes nothing, if either dimension is below
    /// two.
    pub fn new_game(&mut self, row: i32, column: i32) -> (res: MazeResult<()>)
        ensures
            match res {
                Ok(_) => {
                    &&& row >= 2 && column >= 2
                    &&& final(self).map.generated_from(
                        row as int,
                        column as int,
                        old(self).map.random,
                    )
                    &&& final(self).wf()
                    &&& final(self).begun()
                    &&& final(self).will_solve == old(self).will_solve
                    &&& final(self).value_map == old(self).value_map
                },
                Err(e) => {
                    &&& row < 2 || column < 2
                    &&& MazeMap::refusal(e)
                    &&& *final(self) == *old(self)
                },
            },
    {
        match self.map.generate(row, column) {
            Ok(()) => {},
            Err(e) => {
                return Err(e);
            },
        }
        self.player = Player::new(self.map.st, "player");
        self.reset();
        Ok(())
    }

    /// Begins a new game on a maze of `row` rows and `column` columns, carved
    /// with `random`.
    ///
    /// Fails with `Init`, and changes nothing, if either dimension is below
    /// two.
    pub fn new_game_with_random(&mut self, row: i32, column: i32, random: SeededRandom) -> (res:
        MazeResult<()>)
        ensures
            match res {
                Ok(_) => {
                    &&& row >= 2 && column >= 2
                    &&& final(self).map.generated_from(row as int, column as int, random)
                    &&& final(self).wf()
                    &&& final(self).begun()
                    &&& final(self).will_solve == old(self).will_solve
                    &&& final(self).value_map == old(self).value_map
                },
                Err(e) => {
                    &&& row < 2 || column < 2
                    &&& MazeMap::refusal(e)
                    &&& *final(self) == *old(self)
                },
            },
    {
        match self.map.generate_with_new_random(row, column, random) {
            Ok(()) => {},
            Err(e) => {
                return Err(e);
            },
        }
        self.player = Player::new(self.map.st, "player");
        self.reset();
        Ok(())
    }

    /// The words of a command line, or `InValid` if the line is erroneous.
    pub fn words(cmd: &str) -> (res: Result<Vec<String>, RunOnceResult>)
        ensures
            match res {
                Ok(words) => shlex_words(cmd@) == Some(words.deep_view()),
                Err(e) => e is InValid && shlex_words(cmd@) is None,
            },
    {
        match shlex_split(cmd) {
            Some(itr) => Ok(itr),
            None => Err(RunOnceResult::InValid),
        }
    }

    /// Moves the agent and remembers the run as the last move.
    ///
    /// `CanNotMove` if the next cell lies outside the grid or is a wall, and
    /// `Error` with the text of `GameWin` if the agent stands on the end; the
    /// game is then as it was.
    pub fn inner_move(&mut self, status: MoveStatus) -> (res: RunOnceResult)
        requires
            old(self).wf(),
        ensures
            final(self).wf(),
            Self::went(*old(self), status, *final(self), res),
    {
        proof {
            lemma_tree_is_forest(self.map.grid());
        }
        let ghost m = self.map;
        let ghost from = self.player.pos;
        let ghost to = status.next(from);
        match self.move_to(status) {
            Ok(move_list) => {
                proof {
                    let plan = run_of(m.grid(), m.ed, from, to);
                    assert(move_list@ == plan);
                    assert(plan.len() == move_list.len());
                    assert(plan.len() - 1 == ((plan.len() - 1) as usize) as int);
                    assert(from.adjacent(to));
                    lemma_run_cell_open(m.grid(), m.ed, plan, plan.len() - 1);
                    assert(self.player.pos == plan.last());
                    assert(self.map == m);
                }
                self.move_list = Some(move_list);
                RunOnceResult::Done
            },
            Err(err) => {
                assert(*self == *old(self));
                match err {
                    MazeError::CanNotMove => RunOnceResult::CanNotMove,
                    other => {
                        assert(from == m.ed);
                        assert(other == MazeError::GameWin);
                        RunOnceResult::Error(other.message())
                    },
                }
            },
        }
    }

    /// What the command `cli` makes of the game `pre`: the game `post` and
    /// the result `res`.
    pub open spec fn ran(pre: Self, cli: Cli, post: Self, res: RunOnceResult) -> bool {
        match cli {
            Cli::Up => Self::went(pre, MoveStatus::Up, post, res),
            Cli::Down => Self::went(pre, MoveStatus::Down, post, res),
            Cli::Left => Self::went(pre, MoveStatus::Left, post, res),
            Cli::Right => Self::went(pre, MoveStatus::Right, post, res),
            Cli::Restart => {
                &&& res is Done
                &&& post.player.pos == pre.map.st
                &&& post.player.name == pre.player.name
                &&& post.player.step == pre.player.step
                &&& post.player.move_times == pre.player.move_times
                &&& post.move_list is None
                &&& post.solve_list is None
                &&& post.map == pre.map
                &&& post.is_move == pre.is_move
                &&& post.value_map == pre.value_map
                &&& post.will_solve == pre.will_solve
            },
            Cli::New(sub) => {
                if sub.row >= 2 && sub.column >= 2 {
                    &&& res is Done
                    &&& post.begun()
                    &&& post.map.generated_from(
                        sub.row as int,
                        sub.column as int,
                        match sub.seed {
                            Some(state) => SeededRandom::seeded(state),
                            None => pre.map.random,
                        },
                    )
                    &&& post.will_solve == pre.will_solve
                    &&& post.value_map == pre.value_map
                } else {
                    &&& res matches RunOnceResult::Error(why)
                    &&& MazeMap::refusal(MazeError::Init(why))
                    &&& post == pre
                }
            },
            Cli::Solve => {
                &&& res is Done
                &&& post == ConsoleGame { will_solve: true, ..pre }
            },
            Cli::UnSolve => {
                &&& res is Done
                &&& post == ConsoleGame { will_solve: false, ..pre }
            },
            Cli::Quit => res is Quit && post == pre,
            Cli::Display => res is Display && post == pre,
        }
    }

    /// Carries out a command.
    pub fn run_once(&mut self, cli: Cli) -> (res: RunOnceResult)
        requires
            old(self).wf(),
        ensures
            final(self).wf(),
            Self::ran(*old(self), cli, *final(self), res),
    {
        match cli {
            Cli::Up => {
                return self.inner_move(MoveStatus::Up);
            },
            Cli::Down => {
                return self.inner_move(MoveStatus::Down);
            },
            Cli::Left => {
                return self.inner_move(MoveStatus::Left);
            },
            Cli::Right => {
                return self.inner_move(MoveStatus::Right);
            },
            Cli::Restart => {
                self.restart();
                return RunOnceResult::Done;
            },
            Cli::New(sub) => {
                if let Some(state) = sub.seed {
                    match self.new_game_with_random(
                        sub.row,
                        sub.column,
                        SeededRandom::seed_from_u64(state),
                    ) {
                        Ok(_) => {},
                        Err(e) => {
                            return RunOnceResult::Error(e.message());
                        },
                    };
                } else {
                    match self.new_game(sub.row, sub.column) {
                        Ok(_) => {},
                        Err(e) => {
                            return RunOnceResult::Error(e.message());
                        },
                    }
                }
            },
            Cli::Solve => {
                self.will_solve = true;
            },
            Cli::UnSolve => {
                self.will_solve = false;
            },
            Cli::Quit => {
                return RunOnceResult::Quit;
            },
            Cli::Display => {
                return RunOnceResult::Display;
            },
        };
        RunOnceResult::Done
    }

    /// One turn of the game: the last move is forgotten, then the command is
    /// carried out. Where the input was no command, `parsed` holds the reason,
    /// which is handed back.
    pub fn turn(&mut self, parsed: Result<Cli, RunOnceResult>) -> (res: RunOnceResult)
        requires
            old(self).wf(),
        ensures
            final(self).wf(),
            match parsed {
                Ok(cli) => Self::ran(
                    ConsoleGame { move_list: None, ..*old(self) },
                    cli,
                    *final(self),
                    res,
                ),
                Err(why) => res == why && *final(self) == (ConsoleGame {
                    move_list: None,
                    ..*old(self)
                }),
            },
    {
        self.move_list = None;
        match parsed {
            Ok(cli) => self.run_once(cli),
            Err(why) => why,
        }
    }

    /// What a move command makes of the game `pre`.
    ///
    /// On the end the command fails with the text of `GameWin`, and before a
    /// wall or the edge of the grid with `CanNotMove`; the game is then as it
    /// was. Otherwise the agent makes the run of the move, which is remembered
    /// as the last move.
    pub open spec fn went(pre: Self, status: MoveStatus, post: Self, res: RunOnceResult) -> bool {
        let m = pre.map;
        let from = pre.player.pos;
        let to = status.next(from);
        let plan = run_of(m.grid(), m.ed, from, to);
        if from == m.ed {
            (res matches RunOnceResult::Error(why) && why@ == MazeError::GameWin.text()) && post
                == pre
        } else if !open_at(m.grid(), to) {
            res is CanNotMove && post == pre
        } else {
            &&& res is Done
            &&& is_run_from(m.grid(), m.ed, plan, from, to)
            &&& post.move_list matches Some(list)
            &&& list@ == plan
            &&& post.player.pos == plan.last()
            &&& post.player.name == pre.player.name
            &&& post.player.step == pre.player.step.wrapping_add(
                ((plan.len() - 1) as usize) as i32,
            )
            &&& post.player.move_times == pre.player.move_times.wrapping_add(1)
            &&& post.is_move
            &&& post.map == pre.map
            &&& post.value_map == pre.value_map
            &&& post.will_solve == pre.will_solve
            &&& post.solve_list == pre.solve_list
        }
    }
}

impl GameField for ConsoleGame {
    open spec fn field(&self) -> MazeMap {
        self.map
    }

    open spec fn agent(&self) -> Player {
        self.player
    }

    fn map(&self) -> (m: &MazeMap) {
        &self.map
    }

    fn player(&self) -> (p: &Player) {
        &self.player
    }
}

impl Game for ConsoleGame {
    /// The agent stands on the last cell of the run; the steps of the run are
    /// added to its steps and one to its moves, both wrapping around at the
    /// limits of `i32`; the game has seen a move. The run is handed back.
    open spec fn moved(
        pre: Self,
        mv: MoveStatus,
        plan: Seq<Point>,
        step: usize,
        post: Self,
        res: MazeResult<Vec<Point>>,
    ) -> bool {
        &&& res matches Ok(list)
        &&& list@ == plan
        &&& post.map == pre.map
        &&& post.value_map == pre.value_map
        &&& post.will_solve == pre.will_solve
        &&& post.solve_list == pre.solve_list
        &&& post.move_list == pre.move_list
        &&& post.is_move
        &&& post.player.name == pre.player.name
        &&& post.player.pos == plan[step as int]
        &&& post.player.step == pre.player.step.wrapping_add(step as i32)
        &&& post.player.move_times == pre.player.move_times.wrapping_add(1)
    }

    /// The agent stands on `pos`; nothing else changes.
    open spec fn placed(pre: Self, pos: Point, post: Self, res: MazeResult<()>) -> bool {
        &&& res is Ok
        &&& post.player.pos == pos
        &&& post.player.name == pre.player.name
        &&& post.player.step == pre.player.step
        &&& post.player.move_times == pre.player.move_times
        &&& post.map == pre.map
        &&& post.value_map == pre.value_map
        &&& post.will_solve == pre.will_solve
        &&& post.solve_list == pre.solve_list
        &&& post.move_list == pre.move_list
        &&& post.is_move == pre.is_move
    }

    fn after_move(&mut self, mv: MoveStatus, move_list: Vec<Point>, step: usize) -> (res:
        MazeResult<Vec<Point>>) {
        self.player.pos = move_list[step];
        self.player.step = self.player.step.wrapping_add(step as i32);
        self.player.move_times = self.player.move_times.wrapping_add(1);
        self.is_move = true;
        Ok(move_list)
    }

    fn after_move_player(&mut self, pos: Point) -> (res: MazeResult<()>) {
        self.player.pos = pos;
        Ok(())
    }
}

} // verus!
