//! One grid cell: a tile together with its visibility.

use vstd::prelude::*;

use crate::tile::Tile;
use crate::visibility::Visibility;

verus! {

/// A single cell of the grid.
#[derive(Clone, Copy, PartialEq, Eq, Structural, Debug)]
pub struct Field {
    pub tile: Tile,
    pub visibility: Visibility,
}

impl Field {
    /// The tile invariant: a `Number` tile carries a count between 1 and 8.
    pub open spec fn wf(self) -> bool {
        self.tile.wf()
    }

    /// A fresh cell: empty and closed.
    pub fn new() -> (r: Field)
        ensures
            r == (Field { tile: Tile::Empty, visibility: Visibility::Closed }),
    {
        Field { tile: Tile::Empty, visibility: Visibility::Closed }
    }

    pub fn get_tile(&self) -> (r: Tile)
        ensures
            r == self.tile,
    {
        self.tile
    }

    pub fn get_visibility(&self) -> (r: Visibility)
        ensures
            r == self.visibility,
    {
        self.visibility
    }

    pub fn is_mine(&self) -> (r: bool)
        ensures
            r == (self.tile is Mine),
    {
        matches!(self.tile, Tile::Mine)
    }

    /// Records a neighbor-mine count: zero is stored as `Empty`, anything
    /// else as a `Number` tile.
    pub fn set_number(&mut self, number: usize)
        requires
            number <= 8,
        ensures
            final (self).visibility == old(self).visibility,
            number == 0 ==> final (self).tile == Tile::Empty,
            number > 0 ==> final (self).tile == Tile::Number(number as u8),
            final (self).tile.wf(),
    {
        if number == 0 {
            self.tile = Tile::Empty;
        } else {
            self.tile = Tile::Number(number as u8);
        }
    }

    pub fn set_mine(&mut self)
        ensures
            final (self).tile == Tile::Mine,
            final (self).visibility == old(self).visibility,
    {
        self.tile = Tile::Mine;
    }

    pub fn is_open(&self) -> (r: bool)
        ensures
            r == (self.visibility is Open),
    {
        matches!(self.visibility, Visibility::Open)
    }

    pub fn is_closed(&self) -> (r: bool)
        ensures
            r == (self.visibility is Closed),
    {
        matches!(self.visibility, Visibility::Closed)
    }

    pub fn is_flagged(&self) -> (r: bool)
        ensures
            r == (self.visibility is Flagged),
    {
        matches!(self.visibility, Visibility::Flagged)
    }

    pub fn open(&mut self)
        ensures
            final (self).visibility == Visibility::Open,
            final (self).tile == old(self).tile,
    {
        self.visibility = Visibility::Open;
    }

    pub fn close(&mut self)
        ensures
            final (self).visibility == Visibility::Closed,
            final (self).tile == old(self).tile,
    {
        self.visibility = Visibility::Closed;
    }

    pub fn flag(&mut self)
        ensures
            final (self).visibility == Visibility::Flagged,
            final (self).tile == old(self).tile,
    {
        self.visibility = Visibility::Flagged;
    }
}

} // verus!
