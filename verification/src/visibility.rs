//! What the player sees of a cell.

use vstd::prelude::*;

verus! {

/// The player-facing state of a cell. `Closed` cells can be opened or
/// flagged; `Flagged` cells can be unflagged; `Open` is terminal except for
/// the forced opening of unflagged mines on a loss.
#[derive(Clone, Copy, PartialEq, Eq, Structural, Debug)]
pub enum Visibility {
    Closed,
    Open,
    Flagged,
}

} // verus!
