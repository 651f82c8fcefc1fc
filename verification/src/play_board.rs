//! A live session: a board over the random generator, with every player
//! action recorded so the session can be packaged into a replay file.

use vstd::prelude::*;

use crate::board::Board;
use crate::board::board_flag_rel;
use crate::board::board_reveal_rel;
use crate::click::Click;
use crate::field_generator::FieldGenerator;
use crate::field_generator::PlayFieldGenerator;
use crate::grid::lemma_index_bounds;
use crate::grid::lemma_index_injective;
use crate::grid::lemma_index_to_xy;
use crate::position::Position;
use crate::replay_file::ReplayFile;
use crate::sounds::Sounds;
use crate::time::TimeModifier;
use crate::time::nano_cap;

verus! {

pub struct PlayBoard {
    pub board: Board<PlayFieldGenerator>,
    pub clicks: Vec<Click>,
}

impl PlayBoard {
    pub open spec fn wf(self) -> bool {
        self.board.wf()
    }

    pub fn new(generator: PlayFieldGenerator) -> (r: PlayBoard)
        requires
            generator.wf(),
        ensures
            r.wf(),
            r.board.generator == generator,
            r.board.fields is None,
            r.clicks@ == Seq::<Click>::empty(),
    {
        PlayBoard { board: Board::new(generator), clicks: Vec::new() }
    }

    pub fn reset(&mut self)
        requires
            old(self).wf(),
        ensures
            final (self).wf(),
            final (self).board.generator == old(self).board.generator,
            final (self).board.fields is None,
            final (self).clicks@ == Seq::<Click>::empty(),
    {
        self.board.reset();
        self.clicks.clear();
    }

    /// Reveals and records the click with the session's displayed elapsed
    /// time at that moment.
    pub fn reveal_at(&mut self, position: &Position, now: u64, modifier: &TimeModifier) -> (r:
        Vec<Sounds>)
        requires
            old(self).wf(),
            position.valid(
                old(self).board.generator.spec_width(),
                old(self).board.generator.spec_height(),
            ),
            now < nano_cap(),
            old(self).board.time.now_ok(now),
            modifier.wf(),
        ensures
            final (self).wf(),
            board_reveal_rel(old(self).board, final (self).board, *position, now, r@),
            final (self).clicks@.len() == old(self).clicks@.len() + 1,
            final (self).clicks@.drop_last() == old(self).clicks@,
            final (self).clicks@.last() == Click::Reveal(
                *position,
                (TimeModifier::spec_apply(
                    *modifier,
                    final (self).board.time.spec_raw(now) as u64,
                )) as u64,
            ),
    {
        let r = self.board.reveal_at(position, now);
        let t = self.board.time.duration(now, modifier, None);
        self.clicks.push(Click::Reveal(*position, t));
        proof {
            assert(self.clicks@.drop_last() =~= old(self).clicks@);
        }
        r
    }

    /// Flags and records the click with the session's displayed elapsed
    /// time at that moment.
    pub fn flag(&mut self, position: &Position, now: u64, modifier: &TimeModifier) -> (r: Option<
        Sounds,
    >)
        requires
            old(self).wf(),
            position.valid(
                old(self).board.generator.spec_width(),
                old(self).board.generator.spec_height(),
            ),
            now < nano_cap(),
            old(self).board.time.now_ok(now),
            modifier.wf(),
        ensures
            final (self).wf(),
            board_flag_rel(old(self).board, final (self).board, *position, r),
            final (self).clicks@.len() == old(self).clicks@.len() + 1,
            final (self).clicks@.drop_last() == old(self).clicks@,
            final (self).clicks@.last() == Click::Flag(
                *position,
                (TimeModifier::spec_apply(
                    *modifier,
                    final (self).board.time.spec_raw(now) as u64,
                )) as u64,
            ),
    {
        let r = self.board.flag(position);
        let t = self.board.time.duration(now, modifier, None);
        self.clicks.push(Click::Flag(*position, t));
        proof {
            assert(self.clicks@.drop_last() =~= old(self).clicks@);
        }
        r
    }

    /// Packages the finished session into a replay file: the mine layout
    /// read back from the live grid (never regenerated), the recorded
    /// clicks, and the final displayed duration. `None` while the session
    /// is still undecided.
    pub fn create_replay(&self, now: u64, modifier: &TimeModifier) -> (r: Option<ReplayFile>)
        requires
            self.wf(),
            now < nano_cap(),
            self.board.time.now_ok(now),
            modifier.wf(),
        ensures
            r is Some <==> !self.board.spec_still_playing(),
            r matches Some(file) ==> {
                &&& self.board.fields matches Some(f)
                &&& file.size == (f.width, f.height)
                &&& file.clicks@ == self.clicks@
                &&& (forall|q: Position|
                    q.valid(f.width, f.height) ==> (file.mines@.contains(q)
                        <==> f.fields@[#[trigger] q.spec_index(f.width)].tile is Mine))
                &&& file.mines@.no_duplicates()
                &&& file.duration == TimeModifier::spec_apply(
                    *modifier,
                    self.board.time.spec_raw(now) as u64,
                )
            },
    {
        if self.board.still_playing() {
            return None;
        }
        let f = match &self.board.fields {
            Some(f) => f,
            None => {
                proof {
                    assert(false);
                }
                return None;
            },
        };
        let w = f.width;
        let h = f.height;
        let ghost gseq = f.fields@;
        let total = f.fields.len();
        proof {
            assert forall|q: Position| q.valid(w, h) implies 0 <= #[trigger] q.spec_index(w)
                < total by {
                lemma_index_bounds(w, h, q.x as int, q.y as int);
            }
        }
        let mut mines: Vec<Position> = Vec::new();
        for idx in 0..total
            invariant
                total == gseq.len(),
                gseq == f.fields@,
                w == f.width,
                h == f.height,
                gseq.len() == w * h,
                w > 0,
                h > 0,
                forall|q: Position| q.valid(w, h) ==> 0 <= #[trigger] q.spec_index(w) < total,
                forall|k: int|
                    0 <= k < mines@.len() ==> (#[trigger] mines@[k]).valid(w, h),
                forall|k: int|
                    0 <= k < mines@.len() ==> (#[trigger] mines@[k]).spec_index(w) < idx,
                forall|k1: int, k2: int|
                    0 <= k1 < k2 < mines@.len() ==> (#[trigger] mines@[k1]).spec_index(w) != (
                    #[trigger] mines@[k2]).spec_index(w),
                forall|q: Position|
                    q.valid(w, h) ==> ((#[trigger] mines@.contains(q)) <==> (q.spec_index(w)
                        < idx && gseq[q.spec_index(w)].tile is Mine)),
        {
            let fld = f.fields[idx];
            let ghost mpre = mines@;
            if fld.is_mine() {
                let pos = Position::from_index(idx, w);
                proof {
                    lemma_index_to_xy(w, h, idx as int);
                }
                mines.push(pos);
                proof {
                    assert forall|q: Position|
                        q.valid(w, h) implies ((#[trigger] mines@.contains(q)) <==> (
                    q.spec_index(w) < idx + 1 && gseq[q.spec_index(w)].tile is Mine)) by {
                        if q.spec_index(w) == idx as int {
                            lemma_index_injective(w, h, q, pos);
                            assert(mines@[mines@.len() - 1] == q);
                            assert(mines@.contains(q));
                        } else {
                            if mines@.contains(q) {
                                let k = choose|k: int|
                                    0 <= k < mines@.len() && mines@[k] == q;
                                assert(k < mpre.len());
                                assert(mpre[k] == q);
                                assert(mpre.contains(q));
                            }
                            if mpre.contains(q) {
                                let k = choose|k: int| 0 <= k < mpre.len() && mpre[k] == q;
                                assert(mines@[k] == q);
                                assert(mines@.contains(q));
                            }
                        }
                    }
                }
            } else {
                proof {
                    assert forall|q: Position|
                        q.valid(w, h) implies ((#[trigger] mines@.contains(q)) <==> (
                    q.spec_index(w) < idx + 1 && gseq[q.spec_index(w)].tile is Mine)) by {
                        if q.spec_index(w) == idx as int {
                            if mines@.contains(q) {
                                let k = choose|k: int|
                                    0 <= k < mines@.len() && mines@[k] == q;
                            }
                        }
                    }
                }
            }
        }
        proof {
            assert forall|k1: int, k2: int|
                0 <= k1 < k2 < mines@.len() implies mines@[k1] != mines@[k2] by {
                assert(mines@[k1].spec_index(w) != mines@[k2].spec_index(w));
            }
        }
        let t = self.board.time.duration(now, modifier, None);
        let mut clicks_copy: Vec<Click> = Vec::new();
        let ncl = self.clicks.len();
        for k in 0..ncl
            invariant
                ncl == self.clicks@.len(),
                clicks_copy@ == self.clicks@.take(k as int),
        {
            clicks_copy.push(self.clicks[k]);
            proof {
                assert(self.clicks@.take(k as int + 1) =~= self.clicks@.take(k as int).push(
                    self.clicks@[k as int],
                ));
            }
        }
        proof {
            assert(self.clicks@.take(ncl as int) =~= self.clicks@);
        }
        Some(ReplayFile::new(mines, (w, h), clicks_copy, t))
    }
}

} // verus!
