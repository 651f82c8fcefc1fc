//! The outcome tracker of a session.

use vstd::prelude::*;

use crate::position::Position;

verus! {

/// Session outcome. `Playing` is the initial state; `Won` and `Lost` are
/// terminal: once reached, no further reveal or flag is accepted.
#[derive(Clone, Copy, PartialEq, Eq, Structural, Debug)]
pub enum Won {
    Playing,
    Won,
    Lost(Position),
}

impl Won {
    pub fn still_playing(&self) -> (r: bool)
        ensures
            r == (*self is Playing),
    {
        matches!(self, Won::Playing)
    }

    pub fn win(&mut self)
        ensures
            *final (self) == Won::Won,
    {
        *self = Won::Won;
    }

    pub fn lose(&mut self, position: Position)
        ensures
            *final (self) == Won::Lost(position),
    {
        *self = Won::Lost(position);
    }
}

} // verus!
