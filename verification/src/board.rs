//! A playing board: the grid (created lazily on the first reveal, so the
//! first click can be kept mine-free), the clock, and the generator
//! strategy that builds the grid.

use vstd::prelude::*;

use crate::field_generator::FieldGenerator;
use crate::fields::Fields;
use crate::fields::flag_post;
use crate::fields::reveal_post;
use crate::position::Position;
use crate::sounds::Sounds;
use crate::time::Time;
use crate::time::nano_cap;
use crate::won::Won;

verus! {

/// The win check as a state map: what `Fields::check_won` leaves behind.
pub open spec fn check_won_map(f: Fields) -> Fields {
    if f.won is Playing && f.revealed == f.width * f.height - f.mine_amount {
        Fields {
            fields: f.fields,
            width: f.width,
            height: f.height,
            mine_amount: f.mine_amount,
            mines: f.mines,
            revealed: f.revealed,
            won: Won::Won,
        }
    } else {
        f
    }
}

/// The sounds a reveal gives off: one for the opening itself, then one
/// for the session's outcome if it was just decided.
pub open spec fn reveal_sounds(opened: Option<bool>, outcome: Won) -> Seq<Sounds> {
    (match opened {
        Some(true) => seq![Sounds::OpenFromFlags],
        Some(false) => seq![Sounds::Open],
        None => Seq::empty(),
    }) + (match outcome {
        Won::Won => seq![Sounds::Win],
        Won::Lost(_) => seq![Sounds::Lose],
        Won::Playing => Seq::empty(),
    })
}

/// What one reveal does to a board: the no-op after a decided session,
/// or the grid action (through `reveal_post`) followed by the win check,
/// with the grid freshly generated when the reveal was the first.
pub open spec fn board_reveal_rel<G: FieldGenerator>(
    pre: Board<G>,
    post: Board<G>,
    p: Position,
    now: u64,
    r: Seq<Sounds>,
) -> bool {
    &&& post.generator == pre.generator
    &&& post.time.now_ok(now)
    &&& (!pre.spec_still_playing() ==> post == pre && r == Seq::<Sounds>::empty())
    &&& (pre.spec_still_playing() ==> (pre.fields matches Some(f0) ==> exists|
        mid: Fields,
        opened: Option<bool>,
    |
        {
            &&& #[trigger] reveal_post(f0, mid, p, true, opened)
            &&& post.fields == Some(check_won_map(mid))
            &&& r == reveal_sounds(opened, check_won_map(mid).won)
        }))
    &&& (pre.fields is None ==> exists|f0: Fields, mid: Fields, opened: Option<bool>|
        {
            &&& #[trigger] reveal_post(f0, mid, p, true, opened)
            &&& f0.wf()
            &&& f0.won is Playing
            &&& f0.revealed == 0
            &&& f0.width == pre.generator.spec_width()
            &&& f0.height == pre.generator.spec_height()
            &&& f0.mine_amount == pre.generator.spec_mine_amount()
            &&& crate::grid::generated_grid(f0.fields@, f0.width, f0.height, f0.mine_amount)
            &&& pre.generator.grid_ok(f0.fields@, p)
            &&& post.fields == Some(check_won_map(mid))
            &&& r == reveal_sounds(opened, check_won_map(mid).won)
        })
}

/// What one flag call does to a board: nothing before the grid exists,
/// else the grid action through `flag_post`, with the matching sound.
pub open spec fn board_flag_rel<G: FieldGenerator>(
    pre: Board<G>,
    post: Board<G>,
    p: Position,
    r: Option<Sounds>,
) -> bool {
    &&& post.generator == pre.generator
    &&& post.time == pre.time
    &&& (pre.fields is None ==> post == pre && r is None)
    &&& (pre.fields matches Some(f0) ==> exists|toggled: Option<bool>|
        {
            &&& #[trigger] flag_post(f0, post.fields->Some_0, p, toggled)
            &&& post.fields is Some
            &&& r == (match toggled {
                Some(true) => Some(Sounds::Flag),
                Some(false) => Some(Sounds::Unflag),
                None => None::<Sounds>,
            })
        })
}

pub struct Board<G: FieldGenerator> {
    pub generator: G,
    pub time: Time,
    pub fields: Option<Fields>,
}

impl<G: FieldGenerator> Board<G> {
    pub open spec fn wf(self) -> bool {
        &&& self.generator.wf()
        &&& self.time.wf()
        &&& match self.fields {
            Some(f) => {
                &&& f.wf()
                &&& f.width == self.generator.spec_width()
                &&& f.height == self.generator.spec_height()
                &&& f.mine_amount == self.generator.spec_mine_amount()
            },
            None => true,
        }
    }

    /// True while no mine has been hit and the board is not cleared — in
    /// particular before the first reveal has created the grid.
    pub open spec fn spec_still_playing(self) -> bool {
        match self.fields {
            Some(f) => f.won is Playing,
            None => true,
        }
    }

    pub fn new(generator: G) -> (r: Board<G>)
        requires
            generator.wf(),
        ensures
            r.wf(),
            r.generator == generator,
            r.time == Time::NotStarted,
            r.fields is None,
    {
        Board { generator, time: Time::NotStarted, fields: None }
    }

    pub fn reset(&mut self)
        requires
            old(self).wf(),
        ensures
            final (self).wf(),
            final (self).generator == old(self).generator,
            final (self).time == Time::NotStarted,
            final (self).fields is None,
    {
        self.time.reset();
        self.fields = None;
    }

    pub fn still_playing(&self) -> (r: bool)
        ensures
            r == self.spec_still_playing(),
    {
        match &self.fields {
            Some(f) => f.won.still_playing(),
            None => true,
        }
    }

    /// Reveals at `position`, creating the grid (and starting the clock)
    /// on the first reveal, then runs the win check and ends the clock if
    /// the session was decided. Returns the sounds to give off; the clock
    /// reads `now`.
    pub fn reveal_at(&mut self, position: &Position, now: u64) -> (r: Vec<Sounds>)
        requires
            old(self).wf(),
            position.valid(old(self).generator.spec_width(), old(self).generator.spec_height()),
            now < nano_cap(),
            old(self).time.now_ok(now),
        ensures
            final (self).wf(),
            board_reveal_rel(*old(self), *final (self), *position, now, r@),
    {
        if let Some(f) = &self.fields {
            if !f.won.still_playing() {
                return Vec::new();
            }
        }
        if self.fields.is_none() {
            if matches!(self.time, Time::NotStarted) {
                self.time.start(now);
            }
            proof {
                self.generator.wf_bounds();
            }
            let grid = self.generator.generate(position);
            let w = self.generator.width();
            let h = self.generator.height();
            let ma = self.generator.mine_amount();
            self.fields = Some(Fields::new(w, h, ma, grid));
        }
        let mut f = match self.fields.take() {
            Some(f) => f,
            None => {
                proof {
                    assert(false);
                }
                return Vec::new();
            },
        };
        let ghost f0 = f;
        let opened = f.reveal_at(position, true);
        let ghost mid = f;
        f.check_won();
        let won_now = f.won;
        self.fields = Some(f);
        let mut r: Vec<Sounds> = Vec::new();
        match opened {
            Some(true) => r.push(Sounds::OpenFromFlags),
            Some(false) => r.push(Sounds::Open),
            None => {},
        }
        match won_now {
            Won::Won => {
                r.push(Sounds::Win);
                self.time.end(now);
            },
            Won::Lost(_) => {
                r.push(Sounds::Lose);
                self.time.end(now);
            },
            Won::Playing => {},
        }
        proof {
            assert(reveal_post(f0, mid, *position, true, opened));
            assert(self.fields == Some(check_won_map(mid)));
            assert(r@ =~= reveal_sounds(opened, check_won_map(mid).won));
            if old(self).fields is Some {
                assert(f0 == old(self).fields->Some_0);
            } else {
                assert(crate::grid::generated_grid(f0.fields@, f0.width, f0.height, f0.mine_amount));
            }
        }
        r
    }

    /// Flags at `position`: places, removes or chord-places flags on the
    /// existing grid. Returns the sound to give off, if any.
    pub fn flag(&mut self, position: &Position) -> (r: Option<Sounds>)
        requires
            old(self).wf(),
            position.valid(old(self).generator.spec_width(), old(self).generator.spec_height()),
        ensures
            final (self).wf(),
            board_flag_rel(*old(self), *final (self), *position, r),
    {
        let mut f = match self.fields.take() {
            Some(f) => f,
            None => {
                return None;
            },
        };
        let toggled = f.flag(position);
        self.fields = Some(f);
        match toggled {
            Some(true) => Some(Sounds::Flag),
            Some(false) => Some(Sounds::Unflag),
            None => None,
        }
    }
}

} // verus!
