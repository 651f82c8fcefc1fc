//! A recorded session: the mine layout, the board size, the click stream
//! and the total duration, with the validation rules a loaded file must
//! pass before it may drive a replay.

use vstd::prelude::*;

use crate::click::Click;
use crate::position::Position;

verus! {

/// The nanoseconds the total duration may run past the last click.
pub open spec fn duration_slack() -> int {
    1_000_000_000
}

/// The unit of persistence: everything needed to reproduce a session.
pub struct ReplayFile {
    pub mines: Vec<Position>,
    pub size: (usize, usize),
    pub clicks: Vec<Click>,
    pub duration: u64,
}

impl ReplayFile {
    pub open spec fn spec_has_clicks(self) -> bool {
        self.clicks@.len() > 0
    }

    pub open spec fn spec_clicks_in_bounds(self) -> bool {
        forall|k: int|
            0 <= k < self.clicks@.len() ==> (#[trigger] self.clicks@[k]).spec_position().valid(
                self.size.0,
                self.size.1,
            )
    }

    pub open spec fn spec_mines_in_bounds(self) -> bool {
        forall|k: int|
            0 <= k < self.mines@.len() ==> (#[trigger] self.mines@[k]).valid(
                self.size.0,
                self.size.1,
            )
    }

    pub open spec fn spec_mines_unique(self) -> bool {
        self.mines@.no_duplicates()
    }

    /// Board-generation legality: no mine within Chebyshev distance 1 of
    /// the first click.
    pub open spec fn spec_no_mine_near_first_click(self) -> bool {
        forall|k: int|
            0 <= k < self.mines@.len() ==> !self.clicks@[0].spec_position().spec_is_near(
                #[trigger] self.mines@[k],
            )
    }

    /// The recorded total runs at least to the last click and at most one
    /// second past it.
    pub open spec fn spec_duration_consistent(self) -> bool {
        &&& self.clicks@.last().spec_duration() <= self.duration
        &&& self.duration - self.clicks@.last().spec_duration() <= duration_slack()
    }

    /// Every rule a replay file must satisfy before it may drive a game.
    pub open spec fn spec_valid(self) -> bool {
        &&& self.spec_has_clicks()
        &&& self.spec_clicks_in_bounds()
        &&& self.spec_mines_in_bounds()
        &&& self.spec_mines_unique()
        &&& self.spec_no_mine_near_first_click()
        &&& self.spec_duration_consistent()
    }

    pub fn new(mines: Vec<Position>, size: (usize, usize), clicks: Vec<Click>, duration: u64) -> (r:
        ReplayFile)
        ensures
            r.mines@ == mines@,
            r.size == size,
            r.clicks@ == clicks@,
            r.duration == duration,
    {
        ReplayFile { mines, size, clicks, duration }
    }

    /// Checks the loaded file against every validation rule, returning
    /// `None` when all pass and the first failing rule's description
    /// otherwise.
    pub fn validate(&self) -> (r: Option<String>)
        ensures
            r is None <==> self.spec_valid(),
            !self.spec_has_clicks() ==> (r matches Some(msg) && msg@ == "No clicks"@),
            self.spec_has_clicks() && !self.spec_clicks_in_bounds() ==> (r matches Some(msg)
                && msg@ == "Click out of bounds"@),
            self.spec_has_clicks() && self.spec_clicks_in_bounds()
                && !self.spec_mines_in_bounds() ==> (r matches Some(msg) && msg@
                == "Mine out of bounds"@),
            self.spec_has_clicks() && self.spec_clicks_in_bounds() && self.spec_mines_in_bounds()
                && !self.spec_mines_unique() ==> (r matches Some(msg) && msg@
                == "Duplicate mines"@),
            self.spec_has_clicks() && self.spec_clicks_in_bounds() && self.spec_mines_in_bounds()
                && self.spec_mines_unique() && !self.spec_no_mine_near_first_click() ==> (r
                matches Some(msg) && msg@ == "Invalid board generation: mine near first click"@),
            self.spec_has_clicks() && self.spec_clicks_in_bounds() && self.spec_mines_in_bounds()
                && self.spec_mines_unique() && self.spec_no_mine_near_first_click()
                && !self.spec_duration_consistent() ==> (r matches Some(msg) && msg@
                == "Invalid duration"@),
    {
        broadcast use vstd::string::to_string_from_display_ensures_for_str;

        if self.clicks.len() == 0 {
            return Some("No clicks".to_string());
        }
        let ncl = self.clicks.len();
        for k in 0..ncl
            invariant
                ncl == self.clicks@.len(),
                forall|kk: int|
                    0 <= kk < k ==> (#[trigger] self.clicks@[kk]).spec_position().valid(
                        self.size.0,
                        self.size.1,
                    ),
        {
            let p = self.clicks[k].position();
            if p.x >= self.size.0 || p.y >= self.size.1 {
                return Some("Click out of bounds".to_string());
            }
        }
        let nm = self.mines.len();
        for k in 0..nm
            invariant
                nm == self.mines@.len(),
                self.spec_has_clicks(),
                self.spec_clicks_in_bounds(),
                forall|kk: int|
                    0 <= kk < k ==> (#[trigger] self.mines@[kk]).valid(self.size.0, self.size.1),
        {
            let m = self.mines[k];
            if m.x >= self.size.0 || m.y >= self.size.1 {
                return Some("Mine out of bounds".to_string());
            }
        }
        if !crate::utils::has_unique_elements(&self.mines) {
            return Some("Duplicate mines".to_string());
        }
        let first = self.clicks[0].position();
        for k in 0..nm
            invariant
                nm == self.mines@.len(),
                self.spec_has_clicks(),
                self.spec_clicks_in_bounds(),
                self.spec_mines_in_bounds(),
                self.spec_mines_unique(),
                first == self.clicks@[0].spec_position(),
                forall|kk: int|
                    0 <= kk < k ==> !first.spec_is_near(#[trigger] self.mines@[kk]),
        {
            if first.is_near(&self.mines[k]) {
                return Some("Invalid board generation: mine near first click".to_string());
            }
        }
        let last = self.clicks[ncl - 1].duration();
        if last > self.duration || self.duration - last > 1_000_000_000 {
            return Some("Invalid duration".to_string());
        }
        None
    }
}

} // verus!
