//! One recorded player action: what was done, where, and when.

use vstd::prelude::*;

use crate::position::Position;

verus! {

/// A recorded click: a reveal or a flag at a position, stamped with the
/// session's elapsed time in nanoseconds at the moment of the action.
#[derive(Clone, Copy, PartialEq, Eq, Structural, Debug)]
pub enum Click {
    Reveal(Position, u64),
    Flag(Position, u64),
}

impl Click {
    pub open spec fn spec_position(self) -> Position {
        match self {
            Click::Reveal(pos, _) => pos,
            Click::Flag(pos, _) => pos,
        }
    }

    pub open spec fn spec_duration(self) -> u64 {
        match self {
            Click::Reveal(_, duration) => duration,
            Click::Flag(_, duration) => duration,
        }
    }

    pub fn position(&self) -> (r: Position)
        ensures
            r == self.spec_position(),
    {
        match self {
            Click::Reveal(pos, _) => *pos,
            Click::Flag(pos, _) => *pos,
        }
    }

    pub fn duration(&self) -> (r: u64)
        ensures
            r == self.spec_duration(),
    {
        match self {
            Click::Reveal(_, duration) => *duration,
            Click::Flag(_, duration) => *duration,
        }
    }
}

} // verus!
