//! What a cell holds underneath: nothing, a mine, or a neighbor-mine count.

use vstd::prelude::*;

verus! {

/// The content of a cell, fixed at generation time. `Number(n)` carries the
/// count of neighboring mines; a count of zero is represented as `Empty`.
#[derive(Clone, Copy, PartialEq, Eq, Structural, Debug)]
pub enum Tile {
    Empty,
    Mine,
    Number(u8),
}

impl Tile {
    /// A `Number` tile always carries a count between 1 and 8: a cell has at
    /// most 8 neighbors, and a count of 0 is stored as `Empty`.
    pub open spec fn wf(self) -> bool {
        match self {
            Tile::Number(n) => 1 <= n <= 8,
            _ => true,
        }
    }
}

} // verus!
