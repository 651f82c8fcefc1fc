//! Replay playback: a board over the deterministic generator, a cursor
//! into the replay's click list, autoplay by elapsed time, and seeking.

use vstd::prelude::*;

use crate::board::Board;
use crate::board::board_flag_rel;
use crate::board::board_reveal_rel;
use crate::click::Click;
use crate::field_generator::ReplayFieldGenerator;
use crate::fields::max_cells;
use crate::position::Position;
use crate::replay_file::ReplayFile;
use crate::sounds::Sounds;
use crate::time::Time;
use crate::time::TimeModifier;
use crate::time::nano_cap;

verus! {

/// What applying one recorded click does to the board: the reveal or
/// flag relation at the click's position (the sounds it gave off are not
/// tracked here).
pub open spec fn board_click_rel(
    pre: Board<ReplayFieldGenerator>,
    post: Board<ReplayFieldGenerator>,
    c: Click,
    now: u64,
) -> bool {
    match c {
        Click::Reveal(p, _) => exists|snds: Seq<Sounds>| #[trigger] board_reveal_rel(
            pre,
            post,
            p,
            now,
            snds,
        ),
        Click::Flag(p, _) => exists|s: Option<Sounds>| #[trigger] board_flag_rel(pre, post, p, s),
    }
}

/// A chain of board states, each reached from the last by applying the
/// matching click.
pub open spec fn is_click_trace(
    trace: Seq<Board<ReplayFieldGenerator>>,
    clicks: Seq<Click>,
    now: u64,
) -> bool {
    &&& trace.len() == clicks.len() + 1
    &&& forall|i: int|
        0 <= i < clicks.len() ==> board_click_rel(trace[i], #[trigger] trace[i + 1], clicks[i], now)
}

/// The board `post` is what applying the given clicks, in order, to the
/// board `pre` leaves behind.
pub open spec fn clicks_applied(
    pre: Board<ReplayFieldGenerator>,
    post: Board<ReplayFieldGenerator>,
    clicks: Seq<Click>,
    now: u64,
) -> bool {
    exists|trace: Seq<Board<ReplayFieldGenerator>>|
        #[trigger] is_click_trace(trace, clicks, now) && trace.first() == pre && trace.last()
            == post
}

/// Applying no clicks leaves the board as it is.
proof fn lemma_clicks_applied_empty(a: Board<ReplayFieldGenerator>, now: u64)
    ensures
        clicks_applied(a, a, Seq::<Click>::empty(), now),
{
    let trace: Seq<Board<ReplayFieldGenerator>> = seq![a];
    assert(is_click_trace(trace, Seq::<Click>::empty(), now));
    assert(trace.first() == a && trace.last() == a);
}

/// Chains one more applied click onto an applied prefix.
proof fn lemma_clicks_applied_step(
    a: Board<ReplayFieldGenerator>,
    b: Board<ReplayFieldGenerator>,
    c: Board<ReplayFieldGenerator>,
    s: Seq<Click>,
    k: Click,
    now: u64,
)
    requires
        clicks_applied(a, b, s, now),
        board_click_rel(b, c, k, now),
    ensures
        clicks_applied(a, c, s.push(k), now),
{
    let trace = choose|trace: Seq<Board<ReplayFieldGenerator>>|
        #[trigger] is_click_trace(trace, s, now) && trace.first() == a && trace.last() == b;
    let trace2 = trace.push(c);
    assert forall|i: int|
        0 <= i < s.push(k).len() implies board_click_rel(
        trace2[i],
        #[trigger] trace2[i + 1],
        s.push(k)[i],
        now,
    ) by {
        if i < s.len() {
            assert(trace2[i] == trace[i]);
            assert(trace2[i + 1] == trace[i + 1]);
            assert(s.push(k)[i] == s[i]);
        } else {
            assert(trace2[i] == trace.last());
            assert(trace2[i + 1] == c);
            assert(s.push(k)[i] == k);
        }
    }
    assert(is_click_trace(trace2, s.push(k), now));
    assert(trace2.first() == a && trace2.last() == c);
}

pub struct ReplayBoard {
    pub board: Board<ReplayFieldGenerator>,
    pub file: ReplayFile,
    pub next_click: usize,
}

/// Where a seek replays from: a fresh board when it goes backward, the
/// current board when it only goes forward.
pub open spec fn seek_start_board(pre: ReplayBoard, target: usize) -> Board<ReplayFieldGenerator> {
    if target < pre.next_click {
        Board::<ReplayFieldGenerator> {
            generator: pre.board.generator,
            time: Time::NotStarted,
            fields: None,
        }
    } else {
        pre.board
    }
}

/// The first click a seek applies.
pub open spec fn seek_start_index(pre: ReplayBoard, target: usize) -> int {
    if target < pre.next_click {
        0int
    } else {
        pre.next_click as int
    }
}

impl ReplayBoard {
    pub open spec fn wf(self) -> bool {
        &&& self.board.wf()
        &&& self.file.spec_valid()
        &&& self.next_click <= self.file.clicks@.len()
        &&& self.board.generator.width == self.file.size.0
        &&& self.board.generator.height == self.file.size.1
        &&& self.board.generator.mines@ == self.file.mines@
        &&& self.file.duration < nano_cap()
        &&& (forall|k: int|
            0 <= k < self.file.clicks@.len() ==> (#[trigger] self.file.clicks@[
            k]).spec_duration() < nano_cap())
    }

    /// Builds a playback session over a validated replay file.
    pub fn new(file: ReplayFile) -> (r: ReplayBoard)
        requires
            file.spec_valid(),
            file.size.0 > 0,
            file.size.1 > 0,
            file.size.0 * file.size.1 <= max_cells(),
            file.mines@.len() <= file.size.0 * file.size.1,
            file.duration < nano_cap(),
            forall|k: int|
                0 <= k < file.clicks@.len() ==> (#[trigger] file.clicks@[k]).spec_duration()
                    < nano_cap(),
        ensures
            r.wf(),
            r.file.mines@ == file.mines@,
            r.file.size == file.size,
            r.file.clicks@ == file.clicks@,
            r.file.duration == file.duration,
            r.next_click == 0,
            r.board.fields is None,
    {
        let mut mines_copy: Vec<Position> = Vec::new();
        let nm = file.mines.len();
        for k in 0..nm
            invariant
                nm == file.mines@.len(),
                mines_copy@ == file.mines@.take(k as int),
        {
            mines_copy.push(file.mines[k]);
            proof {
                assert(file.mines@.take(k as int + 1) =~= file.mines@.take(k as int).push(
                    file.mines@[k as int],
                ));
            }
        }
        proof {
            assert(file.mines@.take(nm as int) =~= file.mines@);
        }
        let generator = ReplayFieldGenerator {
            width: file.size.0,
            height: file.size.1,
            mines: mines_copy,
        };
        ReplayBoard { board: Board::new(generator), file, next_click: 0 }
    }

    pub fn reset(&mut self)
        requires
            old(self).wf(),
        ensures
            final (self).wf(),
            final (self).file.mines@ == old(self).file.mines@,
            final (self).file.size == old(self).file.size,
            final (self).file.clicks@ == old(self).file.clicks@,
            final (self).file.duration == old(self).file.duration,
            final (self).next_click == 0,
            final (self).board.fields is None,
    {
        self.board.reset();
        self.next_click = 0;
    }

    /// Applies one recorded click to the board, without recording sounds.
    fn apply_click(&mut self, click: &Click, now: u64) -> (r: Vec<Sounds>)
        requires
            old(self).wf(),
            click.spec_position().valid(old(self).file.size.0, old(self).file.size.1),
            now < nano_cap(),
            old(self).board.time.now_ok(now),
        ensures
            final (self).wf(),
            final (self).board.time.now_ok(now),
            final (self).file.mines@ == old(self).file.mines@,
            final (self).file.size == old(self).file.size,
            final (self).file.clicks@ == old(self).file.clicks@,
            final (self).file.duration == old(self).file.duration,
            final (self).next_click == old(self).next_click,
            final (self).board.generator == old(self).board.generator,
            board_click_rel(old(self).board, final (self).board, *click, now),
    {
        match click {
            Click::Reveal(pos, _) => {
                let p = *pos;
                self.board.reveal_at(&p, now)
            },
            Click::Flag(pos, _) => {
                let p = *pos;
                let s = self.board.flag(&p);
                let mut r: Vec<Sounds> = Vec::new();
                if let Some(sound) = s {
                    r.push(sound);
                }
                r
            },
        }
    }

    /// Autoplay: while the clock runs, applies every click whose recorded
    /// time has been reached and moves the cursor past it. Returns the
    /// sounds the applied clicks gave off.
    pub fn advance(&mut self, now: u64, modifier: &TimeModifier) -> (r: Vec<Sounds>)
        requires
            old(self).wf(),
            now < nano_cap(),
            old(self).board.time.now_ok(now),
            modifier.wf(),
        ensures
            final (self).wf(),
            final (self).file.mines@ == old(self).file.mines@,
            final (self).file.size == old(self).file.size,
            final (self).file.clicks@ == old(self).file.clicks@,
            final (self).file.duration == old(self).file.duration,
            old(self).next_click <= final (self).next_click <= final (self).file.clicks@.len(),
            forall|k: int|
                old(self).next_click <= k < final (self).next_click ==> (#[trigger] final (self).file.clicks@[k]).spec_duration() <= TimeModifier::spec_apply(
                    *modifier,
                    old(self).board.time.spec_raw(now) as u64,
                ) || final (self).file.duration <= TimeModifier::spec_apply(
                    *modifier,
                    old(self).board.time.spec_raw(now) as u64,
                ),
            clicks_applied(
                old(self).board,
                final (self).board,
                final (self).file.clicks@.subrange(
                    old(self).next_click as int,
                    final (self).next_click as int,
                ),
                now,
            ),
            old(self).board.time is Playing ==> ({
                let scaled = TimeModifier::spec_apply(
                    *modifier,
                    old(self).board.time.spec_raw(now) as u64,
                );
                let shown = if scaled < old(self).file.duration {
                    scaled
                } else {
                    old(self).file.duration as int
                };
                final (self).next_click == final (self).file.clicks@.len() || final (self).file.clicks@[final (self).next_click as int].spec_duration() > shown
            }),
    {
        let mut r: Vec<Sounds> = Vec::new();
        if !self.board.time.is_playing() {
            proof {
                lemma_clicks_applied_empty(self.board, now);
                assert(self.file.clicks@.subrange(
                    self.next_click as int,
                    self.next_click as int,
                ) =~= Seq::<Click>::empty());
            }
            return r;
        }
        proof {
            lemma_clicks_applied_empty(self.board, now);
            assert(self.file.clicks@.subrange(
                self.next_click as int,
                self.next_click as int,
            ) =~= Seq::<Click>::empty());
        }
        let cur = self.board.time.duration(now, modifier, Some(self.file.duration));
        let n = self.file.clicks.len();
        while self.next_click < n && self.file.clicks[self.next_click].duration() <= cur
            invariant
                self.wf(),
                n == self.file.clicks@.len(),
                self.file.mines@ == old(self).file.mines@,
                self.file.size == old(self).file.size,
                self.file.clicks@ == old(self).file.clicks@,
                self.file.duration == old(self).file.duration,
                old(self).next_click <= self.next_click <= n,
                now < nano_cap(),
                self.board.time.now_ok(now),
                cur <= TimeModifier::spec_apply(
                    *modifier,
                    old(self).board.time.spec_raw(now) as u64,
                ) || self.file.duration <= TimeModifier::spec_apply(
                    *modifier,
                    old(self).board.time.spec_raw(now) as u64,
                ),
                forall|k: int|
                    old(self).next_click <= k < self.next_click ==> (#[trigger] self.file.clicks@[
                    k]).spec_duration() <= cur,
                clicks_applied(
                    old(self).board,
                    self.board,
                    self.file.clicks@.subrange(old(self).next_click as int, self.next_click as int),
                    now,
                ),
            decreases n - self.next_click,
        {
            let click = self.file.clicks[self.next_click];
            proof {
                assert(self.file.clicks@[self.next_click as int].spec_position().valid(
                    self.file.size.0,
                    self.file.size.1,
                ));
            }
            let ghost bpre = self.board;
            let mut sounds = self.apply_click(&click, now);
            proof {
                lemma_clicks_applied_step(
                    old(self).board,
                    bpre,
                    self.board,
                    self.file.clicks@.subrange(
                        old(self).next_click as int,
                        self.next_click as int,
                    ),
                    click,
                    now,
                );
                assert(self.file.clicks@.subrange(
                    old(self).next_click as int,
                    self.next_click as int + 1,
                ) =~= self.file.clicks@.subrange(
                    old(self).next_click as int,
                    self.next_click as int,
                ).push(self.file.clicks@[self.next_click as int]));
            }
            r.append(&mut sounds);
            self.next_click = self.next_click + 1;
        }
        r
    }

    /// Seeking: moves the cursor to `target`. Backward seeks rebuild the
    /// board from the replay's mine list and re-apply the prefix; forward
    /// seeks apply only the missing clicks. The clock is left paused at
    /// the reached click's recorded time (ended at the total for a seek
    /// past the last click, fresh for a seek to the start).
    pub fn seek(&mut self, target: usize, now: u64) -> (r: Vec<Sounds>)
        requires
            old(self).wf(),
            target <= old(self).file.clicks@.len(),
            now < nano_cap(),
            old(self).board.time.now_ok(now),
        ensures
            final (self).wf(),
            final (self).file.mines@ == old(self).file.mines@,
            final (self).file.size == old(self).file.size,
            final (self).file.clicks@ == old(self).file.clicks@,
            final (self).file.duration == old(self).file.duration,
            final (self).next_click == target,
            exists|b: Board<ReplayFieldGenerator>|
                {
                    &&& #[trigger] clicks_applied(
                        seek_start_board(*old(self), target),
                        b,
                        final (self).file.clicks@.subrange(
                            seek_start_index(*old(self), target),
                            target as int,
                        ),
                        now,
                    )
                    &&& final (self).board.generator == b.generator
                    &&& final (self).board.fields == b.fields
                },
            target == 0 ==> final (self).board.time == Time::NotStarted,
            0 < target < final (self).file.clicks@.len() ==> final (self).board.time
                == Time::Paused(final (self).file.clicks@[target - 1].spec_duration()),
            target == final (self).file.clicks@.len() ==> final (self).board.time == Time::Ended(
                final (self).file.duration,
            ),
    {
        let mut r: Vec<Sounds> = Vec::new();
        let ghost start_b = seek_start_board(*old(self), target);
        let ghost start_n: int = seek_start_index(*old(self), target);
        if target < self.next_click {
            self.board.reset();
            self.next_click = 0;
            proof {
                assert(self.board == start_b);
            }
        }
        proof {
            lemma_clicks_applied_empty(self.board, now);
            assert(self.file.clicks@.subrange(start_n, self.next_click as int)
                =~= Seq::<Click>::empty());
        }
        while self.next_click < target
            invariant
                self.wf(),
                target <= self.file.clicks@.len(),
                self.file.mines@ == old(self).file.mines@,
                self.file.size == old(self).file.size,
                self.file.clicks@ == old(self).file.clicks@,
                self.file.duration == old(self).file.duration,
                0 <= start_n <= self.next_click <= target,
                now < nano_cap(),
                self.board.time.now_ok(now),
                clicks_applied(
                    start_b,
                    self.board,
                    self.file.clicks@.subrange(start_n, self.next_click as int),
                    now,
                ),
            decreases target - self.next_click,
        {
            let click = self.file.clicks[self.next_click];
            proof {
                assert(self.file.clicks@[self.next_click as int].spec_position().valid(
                    self.file.size.0,
                    self.file.size.1,
                ));
            }
            let ghost bpre = self.board;
            let mut sounds = self.apply_click(&click, now);
            proof {
                lemma_clicks_applied_step(
                    start_b,
                    bpre,
                    self.board,
                    self.file.clicks@.subrange(start_n, self.next_click as int),
                    click,
                    now,
                );
                assert(self.file.clicks@.subrange(start_n, self.next_click as int + 1)
                    =~= self.file.clicks@.subrange(start_n, self.next_click as int).push(
                    self.file.clicks@[self.next_click as int],
                ));
            }
            r.append(&mut sounds);
            self.next_click = self.next_click + 1;
        }
        let ghost applied_b = self.board;
        if target == 0 {
            self.board.time.reset();
        } else if target == self.file.clicks.len() {
            self.board.time = Time::Ended(self.file.duration);
        } else {
            self.board.time = Time::Paused(self.file.clicks[target - 1].duration());
        }
        proof {
            assert(clicks_applied(
                seek_start_board(*old(self), target),
                applied_b,
                self.file.clicks@.subrange(seek_start_index(*old(self), target), target as int),
                now,
            ));
            assert(self.board.generator == applied_b.generator);
            assert(self.board.fields == applied_b.fields);
        }
        r
    }
}

} // verus!
