//! The four directions of a move.

use crate::point::Point;
use vstd::prelude::*;

verus! {

/// A direction on the grid. Rows grow downwards, columns to the right.
#[derive(PartialEq, Eq, Hash, Clone, Copy, Structural)]
pub enum MoveStatus {
    Up,
    Down,
    Left,
    Right,
}

impl MoveStatus {
    /// The cell one step from `p` in this direction.
    pub open spec fn next(self, p: Point) -> Point {
        match self {
            MoveStatus::Up => p.up(),
            MoveStatus::Down => p.down(),
            MoveStatus::Left => p.left(),
            MoveStatus::Right => p.right(),
        }
    }

    /// The step from `p` in this direction stays within `i32`.
    pub open spec fn fits(self, p: Point) -> bool {
        match self {
            MoveStatus::Up => p.0 > i32::MIN,
            MoveStatus::Down => p.0 < i32::MAX,
            MoveStatus::Left => p.1 > i32::MIN,
            MoveStatus::Right => p.1 < i32::MAX,
        }
    }

    /// The cell one step from `p` in this direction.
    pub fn get_next(&self, p: Point) -> (r: Point)
        requires
            self.fits(p),
        ensures
            r == self.next(p),
    {
        match self {
            MoveStatus::Up => Point(p.0 - 1, p.1),
            MoveStatus::Down => Point(p.0 + 1, p.1),
            MoveStatus::Left => Point(p.0, p.1 - 1),
            MoveStatus::Right => Point(p.0, p.1 + 1),
        }
    }
}

} // verus!
