//! The agent that walks the maze.

use crate::point::Point;
use vstd::prelude::*;

verus! {

/// An agent: where it stands, its name, how many cells it has walked and how
/// many moves it has made.
#[derive(Debug, PartialEq, Eq, Hash, Clone)]
pub struct Player {
    pub pos: Point,
    pub name: String,
    pub step: i32,
    pub move_times: i32,
}

impl Player {
    /// A fresh agent at `pos` with both counters at zero.
    pub fn new(pos: Point, name: &str) -> (p: Player)
        ensures
            p.pos == pos,
            p.name@ == name@,
            p.step == 0,
            p.move_times == 0,
    {
        Player { pos, name: name.to_owned(), step: 0, move_times: 0 }
    }
}

} // verus!
