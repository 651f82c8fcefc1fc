//! Grid coordinates with bounds validation and neighbor enumeration.

use vstd::prelude::*;

verus! {

/// A coordinate on a `width` x `height` grid. A position is meaningful
/// relative to a grid size; `valid` says that it lies on the grid.
#[derive(Clone, Copy, PartialEq, Eq, Structural, Debug)]
pub struct Position {
    pub x: usize,
    pub y: usize,
}

impl Position {
    /// True iff the position lies on a grid of the given size.
    pub open spec fn valid(self, width: usize, height: usize) -> bool {
        self.x < width && self.y < height
    }

    /// The linear index of the position in row-major order.
    pub open spec fn spec_index(self, width: usize) -> int {
        self.y * width + self.x
    }

    /// Chebyshev distance at most 1 in both coordinates (includes `other == self`).
    pub open spec fn spec_is_near(self, other: Position) -> bool {
        -1 <= self.x - other.x <= 1 && -1 <= self.y - other.y <= 1
    }

    /// Builds a position, refusing coordinates that fall off the grid.
    pub fn new(x: usize, y: usize, width: usize, height: usize) -> (r: Option<Position>)
        ensures
            r is Some <==> (x < width && y < height),
            r is Some ==> r->Some_0 == (Position { x, y }),
    {
        if x < width && y < height {
            Some(Position { x, y })
        } else {
            None
        }
    }

    /// The position whose linear index is `index`, on a grid `width` wide.
    pub fn from_index(index: usize, width: usize) -> (r: Position)
        requires
            width > 0,
        ensures
            r.x == index % width,
            r.y == index / width,
            r.spec_index(width) == index,
    {
        let r = Position { x: index % width, y: index / width };
        proof {
            vstd::arithmetic::div_mod::lemma_fundamental_div_mod(index as int, width as int);
            assert(width as int * (index as int / width as int) == (index as int / width as int)
                * width as int);
        }
        r
    }

    /// The linear index of the position in row-major order.
    pub fn index(&self, width: usize, height: usize) -> (r: usize)
        requires
            self.valid(width, height),
            width * height <= usize::MAX,
        ensures
            r == self.spec_index(width),
            r < width * height,
    {
        proof {
            assert(self.y * width + self.x < width * height) by (nonlinear_arith)
                requires
                    self.x < width,
                    self.y < height,
            ;
        }
        self.y * width + self.x
    }

    /// True iff `other` is within Chebyshev distance 1 of `self` (also for `other == self`).
    pub fn is_near(&self, other: &Position) -> (r: bool)
        ensures
            r == self.spec_is_near(*other),
    {
        let dx_ok = if self.x >= other.x { self.x - other.x <= 1 } else { other.x - self.x <= 1 };
        let dy_ok = if self.y >= other.y { self.y - other.y <= 1 } else { other.y - self.y <= 1 };
        dx_ok && dy_ok
    }

    /// The in-bounds positions at Chebyshev distance exactly 1: up to 8 of them,
    /// each listed once, `self` excluded.
    pub fn neighbors(&self, width: usize, height: usize) -> (r: Vec<Position>)
        requires
            self.valid(width, height),
        ensures
            forall|p: Position|
                #[trigger] r@.contains(p) <==> (p.valid(width, height) && p != *self
                    && self.spec_is_near(p)),
            r@.no_duplicates(),
    {
        broadcast use vstd::seq_lib::lemma_seq_contains_after_push;

        let x = self.x;
        let y = self.y;
        let mut r: Vec<Position> = Vec::new();
        if y > 0 {
            if x > 0 {
                r.push(Position { x: x - 1, y: y - 1 });
            }
            r.push(Position { x, y: y - 1 });
            if x + 1 < width {
                r.push(Position { x: x + 1, y: y - 1 });
            }
        }
        if x > 0 {
            r.push(Position { x: x - 1, y });
        }
        if x + 1 < width {
            r.push(Position { x: x + 1, y });
        }
        if y + 1 < height {
            if x > 0 {
                r.push(Position { x: x - 1, y: y + 1 });
            }
            r.push(Position { x, y: y + 1 });
            if x + 1 < width {
                r.push(Position { x: x + 1, y: y + 1 });
            }
        }
        proof {
            assert forall|p: Position|
                (p.valid(width, height) && p != *self && self.spec_is_near(p)) implies r@.contains(
                p,
            ) by {
                assert(p.x == x - 1 || p.x == x || p.x == x + 1);
                assert(p.y == y - 1 || p.y == y || p.y == y + 1);
            }
        }
        r
    }
}

} // verus!
