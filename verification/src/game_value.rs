//! Overlay tags that a display lays over the terrain.

use vstd::prelude::*;

verus! {

/// An overlay on a cell: nothing, part of the last move, or part of the
/// solution path.
#[derive(Debug, PartialEq, Eq, Hash, Clone, Copy, Structural)]
pub enum GameValue {
    Empty,
    Move,
    Solve,
}

impl Default for GameValue {
    fn default() -> (v: GameValue)
        ensures
            v == GameValue::Empty,
    {
        GameValue::Empty
    }
}

} // verus!
