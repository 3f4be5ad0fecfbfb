//! The errors of the library.

use vstd::prelude::*;

verus! {

/// What can go wrong.
///
/// `Init` carries the reason why a maze could not be made. `QueueEmpty` and
/// `SolveException` come from the solver, `GameWin` and `CanNotMove` from
/// moving.
#[derive(PartialEq, Eq, Hash, Debug)]
pub enum MazeError {
    Init(String),
    QueueEmpty,
    SolveException,
    GameWin,
    CanNotMove,
}

pub type MazeResult<T> = Result<T, MazeError>;

impl MazeError {
    /// The text of the error.
    pub open spec fn text(self) -> Seq<char> {
        match self {
            MazeError::Init(value) => value@,
            MazeError::QueueEmpty => "queue empty"@,
            MazeError::SolveException => "solve failed"@,
            MazeError::GameWin => "game is over"@,
            MazeError::CanNotMove => "can not move"@,
        }
    }

    /// The text of the error, for display.
    pub fn message(&self) -> (r: String)
        ensures
            r@ == self.text(),
    {
        match self {
            MazeError::Init(value) => value.clone(),
            MazeError::QueueEmpty => "queue empty".to_owned(),
            MazeError::SolveException => "solve failed".to_owned(),
            MazeError::GameWin => "game is over".to_owned(),
            MazeError::CanNotMove => "can not move".to_owned(),
        }
    }
}

} // verus!
