//! The value behind a seven-segment display: the remaining-mines counter
//! and the elapsed-seconds counter. Drawing it is the front end's business;
//! the engine only keeps the number.

use vstd::prelude::*;

verus! {

/// A signed counter shown on a seven-segment display. The remaining-mines
/// counter may go negative when the player over-flags; the display clamps,
/// the value itself does not.
#[derive(Clone, Copy, PartialEq, Eq, Structural, Debug)]
pub struct SevenSegmentNumber {
    pub number: i32,
}

impl SevenSegmentNumber {
    pub fn new(number: i32) -> (r: SevenSegmentNumber)
        ensures
            r.number == number,
    {
        SevenSegmentNumber { number }
    }
}

} // verus!
