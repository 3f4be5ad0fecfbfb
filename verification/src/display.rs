//! The text that shows a game: three lines on the agent, then the grid, one
//! line for each row.
//!
//! On the grid the agent hides the last move, the last move hides the
//! solution, and the solution hides the ground.

use crate::console_game::{ConsoleGame, RunOnceResult};
use crate::errors::MazeResult;
use crate::game::{shown_cell, shown_overlay, Game, ToGameValue};
use crate::game_value::GameValue;
use crate::grid::{cell, cols, in_grid, rows};
use crate::laws::lemma_end_reachable;
use crate::point::Point;
use vstd::prelude::*;
use vstd::string::{to_string_from_display_ensures, StringExecFns};

verus! {

/// For each cell of a grid, what lies over it.
pub type Layer = Seq<Seq<GameValue>>;

/// The rows of overlays as a layer.
pub open spec fn layer_of(layer: Vec<Vec<GameValue>>) -> Layer {
    Seq::new(layer@.len(), |i: int| layer@[i]@)
}

/// A layer of `r` rows and `c` columns with nothing on it.
pub open spec fn bare(r: int, c: int) -> Layer {
    Seq::new(r as nat, |i: int| Seq::new(c as nat, |j: int| GameValue::Empty))
}

/// The layer `base` with `tag` laid on every cell of `list`.
pub open spec fn painted(base: Layer, list: Seq<Point>, tag: GameValue) -> Layer {
    Seq::new(
        base.len(),
        |i: int|
            Seq::new(
                base[i].len(),
                |j: int|
                    if list.contains(Point(i as i32, j as i32)) {
                        tag
                    } else {
                        base[i][j]
                    },
            ),
    )
}

/// The layer of a game whose solution is `trail`: the solution, and over it
/// the last move.
pub open spec fn overlays(game: ConsoleGame, trail: Seq<Point>) -> Layer {
    let g = game.map.grid();
    let solved = painted(bare(rows(g), cols(g)), trail, GameValue::Solve);
    match game.move_list {
        Some(list) => painted(solved, list@, GameValue::Move),
        None => solved,
    }
}

/// What is shown for the cell `p`.
pub open spec fn glyph(game: ConsoleGame, layer: Layer, p: Point) -> Seq<char> {
    if p == game.player.pos {
        game.value_map.player@
    } else {
        match layer[p.0 as int][p.1 as int] {
            GameValue::Empty => shown_cell(cell(game.map.grid(), p), game.value_map)@,
            over => shown_overlay(over, game.value_map)@,
        }
    }
}

/// The first `n` cells of row `i`, as shown.
pub open spec fn line_text(game: ConsoleGame, layer: Layer, i: int, n: int) -> Seq<char>
    decreases n,
{
    if n <= 0 {
        Seq::empty()
    } else {
        line_text(game, layer, i, n - 1) + glyph(game, layer, Point(i as i32, (n - 1) as i32))
    }
}

/// The first `n` rows as shown, each after a line break.
pub open spec fn board_text(game: ConsoleGame, layer: Layer, n: int) -> Seq<char>
    decreases n,
{
    if n <= 0 {
        Seq::empty()
    } else {
        board_text(game, layer, n - 1) + "\n"@ + line_text(
            game,
            layer,
            n - 1,
            cols(game.map.grid()),
        )
    }
}

/// The three lines on the agent, given its counters as text.
pub open spec fn head_text(name: Seq<char>, step: Seq<char>, times: Seq<char>) -> Seq<char> {
    "player name: "@ + name + "\n"@ + "step: "@ + step + "\n"@ + "move times: "@ + times
}

/// The solution that is shown: the shortest walk to the end if the game is to
/// show one, else nothing.
pub open spec fn trail_shown(game: ConsoleGame, trail: Seq<Point>) -> bool {
    if game.will_solve {
        if game.player.pos == game.map.ed {
            trail == seq![game.player.pos]
        } else {
            crate::solve::is_shortest_walk(game.map.grid(), trail, game.player.pos, game.map.ed)
        }
    } else {
        trail.len() == 0
    }
}

/// `text` shows the game: the head with the counters as the standard library
/// writes them, then the board.
pub open spec fn shows(game: ConsoleGame, text: Seq<char>) -> bool {
    exists|step: String, times: String, trail: Seq<Point>|
        {
            &&& #[trigger] to_string_from_display_ensures::<i32>(&game.player.step, step)
            &&& #[trigger] to_string_from_display_ensures::<i32>(&game.player.move_times, times)
            &&& #[trigger] trail_shown(game, trail)
            &&& text == head_text(game.player.name@, step@, times@) + board_text(
                game,
                overlays(game, trail),
                rows(game.map.grid()),
            )
        }
}

/// With nothing laid on it, a layer stays as it is.
pub proof fn lemma_painted_nothing(base: Layer, tag: GameValue)
    ensures
        painted(base, Seq::<Point>::empty(), tag) == base,
{
    let p = painted(base, Seq::<Point>::empty(), tag);
    assert forall|i: int| 0 <= i < base.len() implies #[trigger] p[i] =~= base[i] by {}
    assert(p =~= base);
}

impl ConsoleGame {
    /// A layer of `row` rows and `column` columns with nothing on it.
    fn bare_layer(row: usize, column: usize) -> (layer: Vec<Vec<GameValue>>)
        ensures
            layer_of(layer) == bare(row as int, column as int),
    {
        let mut layer: Vec<Vec<GameValue>> = Vec::new();
        let mut i: usize = 0;
        while i < row
            invariant
                i <= row,
                layer@.len() == i,
                forall|k: int|
                    0 <= k < i ==> (#[trigger] layer@[k])@ == Seq::new(
                        column as nat,
                        |j: int| GameValue::Empty,
                    ),
            decreases row - i,
        {
            let mut line: Vec<GameValue> = Vec::new();
            let mut j: usize = 0;
            while j < column
                invariant
                    j <= column,
                    line@.len() == j,
                    forall|k: int| 0 <= k < j ==> #[trigger] line@[k] == GameValue::Empty,
                decreases column - j,
            {
                line.push(GameValue::Empty);
                j += 1;
            }
            assert(line@ =~= Seq::new(column as nat, |j: int| GameValue::Empty));
            layer.push(line);
            i += 1;
        }
        assert(layer_of(layer) =~= bare(row as int, column as int));
        layer
    }

    /// Lays `tag` on every cell of `list`. Cells outside the layer are passed
    /// over.
    fn paint(layer: &mut Vec<Vec<GameValue>>, list: &Vec<Point>, tag: GameValue)
        requires
            old(layer)@.len() <= i32::MAX,
            forall|i: int| 0 <= i < old(layer)@.len() ==> (#[trigger] old(layer)@[i])@.len() <= i32::MAX,
        ensures
            layer_of(*final(layer)) == painted(layer_of(*old(layer)), list@, tag),
    {
        let ghost base = layer_of(*layer);
        proof {
            assert(list@.take(0) =~= Seq::<Point>::empty());
            lemma_painted_nothing(base, tag);
        }
        let mut k: usize = 0;
        while k < list.len()
            invariant
                k <= list@.len(),
                base.len() <= i32::MAX,
                forall|i: int| 0 <= i < base.len() ==> (#[trigger] base[i]).len() <= i32::MAX,
                layer_of(*layer) == painted(base, list@.take(k as int), tag),
            decreases list@.len() - k,
        {
            let p = list[k];
            let ghost before = layer_of(*layer);
            let ghost done = list@.take(k as int);
            let ghost next = list@.take(k + 1);
            proof {
                assert(next =~= done.push(p));
                assert forall|q: Point| next.contains(q) <==> done.contains(q) || q == p by {
                    if done.contains(q) {
                        let x = choose|x: int| 0 <= x < done.len() && done[x] == q;
                        assert(next[x] == q);
                    }
                    if q == p {
                        assert(next[k as int] == p);
                    }
                    if next.contains(q) {
                        let x = choose|x: int| 0 <= x < next.len() && next[x] == q;
                        if x < k {
                            assert(done[x] == q);
                        }
                    }
                }
            }
            if p.0 >= 0 && p.1 >= 0 && (p.0 as usize) < layer.len() {
                if (p.1 as usize) < layer[p.0 as usize].len() {
                    layer[p.0 as usize][p.1 as usize] = tag;
                    assert(layer_of(*layer) =~~= before.update(
                        p.0 as int,
                        before[p.0 as int].update(p.1 as int, tag),
                    ));
                }
            }
            k += 1;
            proof {
                let now = layer_of(*layer);
                let want = painted(base, next, tag);
                assert(now.len() == before.len());
                assert(now.len() == want.len());
                assert forall|i: int| 0 <= i < now.len() implies #[trigger] now[i] =~= want[i] by {
                    assert(before[i].len() == base[i].len());
                    assert forall|j: int| 0 <= j < now[i].len() implies now[i][j] == want[i][j] by {
                        let q = Point(i as i32, j as i32);
                        assert(before[i][j] == if done.contains(q) {
                            tag
                        } else {
                            base[i][j]
                        });
                        assert(next.contains(q) <==> done.contains(q) || q == p);
                    }
                }
                assert(now =~= want);
            }
        }
        assert(list@.take(list@.len() as int) =~= list@);
    }

    /// The text that shows the game.
    ///
    /// With the solution switched on, the shortest walk from the agent to the
    /// end is shown under the last move.
    pub fn display_text(&self) -> (res: MazeResult<String>)
        requires
            self.wf(),
        ensures
            res matches Ok(text) && shows(*self, text@),
    {
        let step_text = self.player.step.to_string();
        let times_text = self.player.move_times.to_string();
        let mut text = "player name: ".to_owned();
        text.append(self.player.name.as_str());
        text.append("\n");
        text.append("step: ");
        text.append(step_text.as_str());
        text.append("\n");
        text.append("move times: ");
        text.append(times_text.as_str());
        assert(text@ =~= head_text(self.player.name@, step_text@, times_text@));
        let height = self.map.row();
        let width = self.map.column();
        let solve_list: Vec<Point> = if self.will_solve {
            match self.solve(self.player.pos) {
                Ok(path) => path,
                Err(e) => {
                    proof {
                        lemma_end_reachable(self.map, self.player.pos);
                    }
                    return Err(e);
                },
            }
        } else {
            Vec::new()
        };
        let ghost trail = solve_list@;
        assert(trail_shown(*self, trail));
        let mut layer = Self::bare_layer(height, width);
        proof {
            let l = layer_of(layer);
            assert(l.len() == height);
            assert forall|i: int| 0 <= i < layer@.len() implies (#[trigger] layer@[i])@.len()
                <= i32::MAX by {
                assert(l[i] == layer@[i]@);
            }
        }
        Self::paint(&mut layer, &solve_list, GameValue::Solve);
        proof {
            let l = layer_of(layer);
            assert(l.len() == height);
            assert forall|i: int| 0 <= i < layer@.len() implies (#[trigger] layer@[i])@.len()
                <= i32::MAX by {
                assert(l[i] == layer@[i]@);
                assert(l[i].len() == width);
            }
        }
        if let Some(move_list) = &self.move_list {
            Self::paint(&mut layer, move_list, GameValue::Move);
        }
        let ghost over = layer_of(layer);
        assert(over == overlays(*self, trail));
        assert forall|k: int| 0 <= k < over.len() implies (#[trigger] over[k]).len() == width by {}
        let ghost head = text@;
        let mut i: usize = 0;
        while i < height
            invariant
                i <= height,
                self.wf(),
                height == rows(self.map.grid()),
                width == cols(self.map.grid()),
                over == layer_of(layer),
                over.len() == height,
                forall|k: int| 0 <= k < over.len() ==> (#[trigger] over[k]).len() == width,
                text@ == head + board_text(*self, over, i as int),
            decreases height - i,
        {
            text.append("\n");
            let ghost start = text@;
            let mut j: usize = 0;
            while j < width
                invariant
                    i < height,
                    j <= width,
                    self.wf(),
                    height == rows(self.map.grid()),
                    width == cols(self.map.grid()),
                    over == layer_of(layer),
                    over.len() == height,
                    forall|k: int| 0 <= k < over.len() ==> (#[trigger] over[k]).len() == width,
                    text@ == start + line_text(*self, over, i as int, j as int),
                decreases width - j,
            {
                let p = Point(i as i32, j as i32);
                assert(in_grid(self.map.grid(), p));
                assert(over[i as int].len() == width);
                let shown: &String = if p == self.player.pos {
                    &self.value_map.player
                } else {
                    match layer[i][j] {
                        GameValue::Empty => self.map.cell_at(p).to(&self.value_map),
                        over => over.to(&self.value_map),
                    }
                };
                assert(shown@ == glyph(*self, over, p));
                text.append(shown.as_str());
                j += 1;
                assert(text@ =~= start + line_text(*self, over, i as int, j as int));
            }
            i += 1;
            assert(text@ =~= head + board_text(*self, over, i as int));
        }
        Ok(text)
    }

    /// What is to be written after a command with the result `result`;
    /// nothing when the game is to end.
    ///
    /// After a command that went well the game is shown. Otherwise the reason
    /// is given.
    pub fn report(&self, result: &RunOnceResult) -> (res: Option<String>)
        requires
            self.wf(),
        ensures
            match *result {
                RunOnceResult::Done => res matches Some(text) && shows(*self, text@),
                RunOnceResult::Display => res matches Some(text) && shows(*self, text@),
                RunOnceResult::InValid => res matches Some(text) && text@ == "invalid input"@,
                RunOnceResult::CanNotMove => res matches Some(text) && text@ == "can not move"@,
                RunOnceResult::Quit => res is None,
                RunOnceResult::Error(err) => res matches Some(text) && text@ == "error: "@ + err@,
                RunOnceResult::CmdError(err) => res matches Some(text) && text@ == err@,
            },
    {
        match result {
            RunOnceResult::Done | RunOnceResult::Display => match self.display_text() {
                Ok(text) => Some(text),
                Err(e) => Some(e.message()),
            },
            RunOnceResult::InValid => Some("invalid input".to_owned()),
            RunOnceResult::CanNotMove => Some("can not move".to_owned()),
            RunOnceResult::Quit => None,
            RunOnceResult::Error(err) => {
                let mut text = "error: ".to_owned();
                text.append(err.as_str());
                Some(text)
            },
            RunOnceResult::CmdError(err) => Some(err.clone()),
        }
    }
}

} // verus!
