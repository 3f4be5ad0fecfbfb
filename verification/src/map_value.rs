//! The state of one grid cell.

use vstd::prelude::*;

verus! {

/// What a grid cell holds.
///
/// A fresh grid is all `Wall`; carving turns cells into `Road`; after carving,
/// one cell is marked `St` (the start) and one `Ed` (the end). `Empty` and
/// `Border` never come out of generation; like every value but `Wall` they can
/// be walked on.
#[derive(Debug, PartialEq, Eq, Hash, Clone, Copy, Structural)]
pub enum MapValue {
    Empty,
    Wall,
    Road,
    Border,
    St,
    Ed,
}

impl Default for MapValue {
    fn default() -> (v: MapValue)
        ensures
            v == MapValue::Empty,
    {
        MapValue::Empty
    }
}

impl MapValue {
    /// The cell is not a wall, so an agent or a path may pass through it.
    pub open spec fn walkable(self) -> bool {
        self != MapValue::Wall
    }

    /// The cell is one that an agent may be placed on directly: a corridor,
    /// the start or the end.
    pub open spec fn landable(self) -> bool {
        self == MapValue::Road || self == MapValue::St || self == MapValue::Ed
    }
}

} // verus!
