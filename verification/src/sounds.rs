//! The discrete feedback events the engine emits. Playing them (or
//! drawing anything for them) is the front end's business.

use vstd::prelude::*;

verus! {

/// What just happened, for the front end to sound out.
#[derive(Clone, Copy, PartialEq, Eq, Structural, Debug)]
pub enum Sounds {
    Flag,
    Unflag,
    Open,
    OpenFromFlags,
    Win,
    Lose,
}

} // verus!
