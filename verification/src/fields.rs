//! The grid of cells, with the reveal (flood fill and chording) and flag
//! (with chord-flagging) algorithms and the win condition.

use vstd::prelude::*;
use vstd::pervasive::VecAdditionalExecFns;

use crate::cascade::cascade_reach;
use crate::cascade::cascade_step;
use crate::cascade::lemma_cascade_complete;
use crate::cascade::lemma_reach_start;
use crate::cascade::lemma_reach_step;
use crate::field::Field;
use crate::grid::count_flagged_neighbors;
use crate::grid::flagged_neighbor_count;
use crate::grid::lemma_empty_has_no_mine_neighbor;
use crate::grid::lemma_index_bounds;
use crate::grid::all_wf;
use crate::grid::closed_neighbor_count;
use crate::grid::count_flagged;
use crate::grid::count_mines;
use crate::grid::count_open;
use crate::grid::count_closed;
use crate::grid::count_closed_neighbors;
use crate::grid::count_not_open_neighbors;
use crate::grid::generated_grid;
use crate::grid::lemma_count_cells_agree;
use crate::grid::lemma_count_cells_all_false;
use crate::grid::lemma_count_cells_bounds;
use crate::grid::lemma_count_cells_update;
use crate::grid::lemma_index_injective;
use crate::grid::lemma_index_to_xy;
use crate::grid::lemma_numbers_correct_same_tiles;
use crate::grid::no_mine_open;
use crate::grid::not_open_neighbor_count;
use crate::grid::numbers_correct;
use crate::position::Position;
use crate::seven_segment_number::SevenSegmentNumber;
use crate::tile::Tile;
use crate::visibility::Visibility;
use crate::won::Won;

verus! {

/// The upper bound this library puts on `width * height`; it keeps every
/// derived quantity comfortably inside `usize` and `i32`.
pub open spec fn max_cells() -> int {
    0x1000_0000
}

/// The playing grid: the cell array in row-major order, the cosmetic
/// remaining-mines counter, the count of opened cells, and the outcome.
pub struct Fields {
    pub fields: Vec<Field>,
    pub width: usize,
    pub height: usize,
    pub mine_amount: usize,
    pub mines: SevenSegmentNumber,
    pub revealed: usize,
    pub won: Won,
}

impl Fields {
    /// The cell under a position.
    pub open spec fn cell(self, p: Position) -> Field {
        self.fields@[p.spec_index(self.width)]
    }

    /// The grid invariant. The clauses guarded by `won is Playing` are the
    /// live-session ones: no mine is open, `revealed` counts the open cells,
    /// and the mines counter equals the mine total minus placed flags. After
    /// a loss mines are force-opened and the counters stop being meaningful.
    pub open spec fn wf(self) -> bool {
        &&& self.width > 0
        &&& self.height > 0
        &&& self.width * self.height <= max_cells()
        &&& self.fields@.len() == self.width * self.height
        &&& self.mine_amount <= self.width * self.height
        &&& count_mines(self.fields@) == self.mine_amount
        &&& all_wf(self.fields@)
        &&& numbers_correct(self.fields@, self.width, self.height)
        &&& (self.won is Playing ==> no_mine_open(self.fields@))
        &&& (self.won is Playing ==> self.revealed == count_open(self.fields@))
        &&& (self.won is Playing ==> self.mines.number == self.mine_amount - count_flagged(
            self.fields@,
        ))
    }

    /// A fresh grid over a generated cell array: nothing revealed, nothing
    /// flagged, session undecided.
    pub fn new(width: usize, height: usize, mine_amount: usize, fields: Vec<Field>) -> (r: Fields)
        requires
            width > 0,
            height > 0,
            width * height <= max_cells(),
            mine_amount <= width * height,
            generated_grid(fields@, width, height, mine_amount),
        ensures
            r.wf(),
            r.fields@ == fields@,
            r.width == width,
            r.height == height,
            r.mine_amount == mine_amount,
            r.mines.number == mine_amount,
            r.revealed == 0,
            r.won is Playing,
    {
        proof {
            lemma_count_cells_all_false(fields@, |f: Field| f.visibility is Open);
            lemma_count_cells_all_false(fields@, |f: Field| f.visibility is Flagged);
        }
        Fields {
            fields,
            width,
            height,
            mine_amount,
            mines: SevenSegmentNumber::new(mine_amount as i32),
            revealed: 0,
            won: Won::Playing,
        }
    }

    /// Win check, run after every top-level reveal: the session is won
    /// exactly when every non-mine cell has been revealed.
    pub fn check_won(&mut self)
        requires
            old(self).wf(),
        ensures
            final (self).wf(),
            final (self).fields == old(self).fields,
            final (self).fields@ == old(self).fields@,
            final (self).width == old(self).width,
            final (self).height == old(self).height,
            final (self).mine_amount == old(self).mine_amount,
            final (self).mines == old(self).mines,
            final (self).revealed == old(self).revealed,
            final (self).won == (if old(self).won is Playing && old(self).revealed == old(
                self,
            ).width * old(self).height - old(self).mine_amount {
                Won::Won
            } else {
                old(self).won
            }),
    {
        if self.won.still_playing() && self.revealed == self.width * self.height
            - self.mine_amount {
            self.won.win();
        }
    }

    pub fn get_fields(&self) -> (r: &Vec<Field>)
        ensures
            r@ == self.fields@,
    {
        &self.fields
    }
}

/// The condition under which an open cell chord-flags: it shows a number
/// equal to its count of not-open neighbors, at least one of them closed.
pub open spec fn chord_flag_fires(g: Seq<Field>, w: usize, h: usize, p: Position) -> bool {
    let i = p.spec_index(w);
    &&& g[i].visibility is Open
    &&& g[i].tile is Number
    &&& closed_neighbor_count(g, w, h, p.x as int, p.y as int) > 0
    &&& not_open_neighbor_count(g, w, h, p.x as int, p.y as int) == g[i].tile->Number_0
}

/// What `Fields::flag` does, as a relation between the state before the
/// call, the state after it, the flagged position, and the returned signal.
pub open spec fn flag_post(pre: Fields, post: Fields, p: Position, r: Option<bool>) -> bool {
    let w = pre.width;
    let h = pre.height;
    let g0 = pre.fields@;
    let g1 = post.fields@;
    let i = p.spec_index(w);
    &&& post.width == w
    &&& post.height == h
    &&& post.mine_amount == pre.mine_amount
    &&& post.won == pre.won
    &&& post.revealed == pre.revealed
    &&& g1.len() == g0.len()
    &&& (forall|k: int| 0 <= k < g0.len() ==> (#[trigger] g1[k]).tile == g0[k].tile)
    &&& if !(pre.won is Playing) {
        &&& g1 == g0
        &&& post.mines == pre.mines
        &&& r is None
    } else if g0[i].visibility is Closed {
        &&& r == Some(true)
        &&& g1 == g0.update(i, Field { tile: g0[i].tile, visibility: Visibility::Flagged })
        &&& post.mines.number == pre.mines.number - 1
    } else if g0[i].visibility is Flagged {
        &&& r == Some(false)
        &&& g1 == g0.update(i, Field { tile: g0[i].tile, visibility: Visibility::Closed })
        &&& post.mines.number == pre.mines.number + 1
    } else if chord_flag_fires(g0, w, h, p) {
        &&& r == Some(true)
        &&& forall|q: Position|
            q.valid(w, h) ==> (#[trigger] g1[q.spec_index(w)]).visibility == (if q != p
                && p.spec_is_near(q) && g0[q.spec_index(w)].visibility is Closed {
                Visibility::Flagged
            } else {
                g0[q.spec_index(w)].visibility
            })
    } else {
        &&& g1 == g0
        &&& post.mines == pre.mines
        &&& r is None
    }
}

/// Tiles are untouched by visibility changes, so the tile-derived parts
/// of the invariant carry over.
proof fn lemma_tiles_preserved_props(g0: Seq<Field>, g1: Seq<Field>, w: usize, h: usize)
    requires
        g0.len() == g1.len(),
        g0.len() == w * h,
        forall|i: int| 0 <= i < g0.len() ==> g0[i].tile == (#[trigger] g1[i]).tile,
        all_wf(g0),
        numbers_correct(g0, w, h),
    ensures
        all_wf(g1),
        numbers_correct(g1, w, h),
        count_mines(g1) == count_mines(g0),
{
    lemma_numbers_correct_same_tiles(g0, g1, w, h);
    lemma_count_cells_agree(g1, g0, |f: Field| f.tile is Mine);
    assert forall|i: int| 0 <= i < g1.len() implies (#[trigger] g1[i]).wf() by {
        assert(g0[i].wf());
    }
}

impl Fields {
    /// Flag, unflag or chord-flag a cell.
    ///
    /// On a closed cell: place a flag and count the mines counter down,
    /// returning `Some(true)`. On a flagged cell: remove the flag and count
    /// the counter back up, returning `Some(false)`. On an open number cell
    /// whose not-open neighbors number exactly its number, with at least one
    /// of them closed: flag all its closed neighbors and return
    /// `Some(true)`. Anywhere else, and after the session is decided: no
    /// change, `None`.
    pub fn flag(&mut self, position: &Position) -> (r: Option<bool>)
        requires
            old(self).wf(),
            position.valid(old(self).width, old(self).height),
        ensures
            final (self).wf(),
            flag_post(*old(self), *final (self), *position, r),
    {
        broadcast use vstd::seq_lib::lemma_seq_contains_after_push;

        if !self.won.still_playing() {
            return None;
        }
        let ghost g0 = self.fields@;
        let ghost w = self.width;
        let ghost h = self.height;
        let ghost ma = self.mine_amount;
        let idx = position.index(self.width, self.height);
        let f = self.fields[idx];
        match f.get_visibility() {
            Visibility::Closed => {
                let mut nf = f;
                nf.flag();
                self.fields.set(idx, nf);
                proof {
                    lemma_count_cells_bounds(g0, |f: Field| f.visibility is Flagged);
                    lemma_count_cells_update(g0, |f: Field| f.visibility is Flagged, idx as int, nf);
                    lemma_count_cells_update(g0, |f: Field| f.visibility is Open, idx as int, nf);
                }
                self.mines.number = self.mines.number - 1;
                proof {
                    lemma_tiles_preserved_props(g0, self.fields@, w, h);
                }
                Some(true)
            },
            Visibility::Flagged => {
                let mut nf = f;
                nf.close();
                self.fields.set(idx, nf);
                proof {
                    lemma_count_cells_bounds(g0, |f: Field| f.visibility is Flagged);
                    lemma_count_cells_update(g0, |f: Field| f.visibility is Flagged, idx as int, nf);
                    lemma_count_cells_update(g0, |f: Field| f.visibility is Open, idx as int, nf);
                }
                self.mines.number = self.mines.number + 1;
                proof {
                    lemma_tiles_preserved_props(g0, self.fields@, w, h);
                }
                Some(false)
            },
            Visibility::Open => {
                let num: u8 = match f.get_tile() {
                    Tile::Number(n) => n,
                    _ => {
                        return None;
                    },
                };
                let closed_count = count_closed_neighbors(
                    &self.fields,
                    self.width,
                    self.height,
                    position,
                );
                let not_open = count_not_open_neighbors(
                    &self.fields,
                    self.width,
                    self.height,
                    position,
                );
                if closed_count > 0 && (num as usize) == not_open {
                    self.flag_closed_neighbors(position);
                    Some(true)
                } else {
                    None
                }
            },
        }
    }

    /// Flags every closed neighbor of `position` (the chord-flag action).
    fn flag_closed_neighbors(&mut self, position: &Position)
        requires
            old(self).wf(),
            old(self).won is Playing,
            position.valid(old(self).width, old(self).height),
        ensures
            final (self).wf(),
            final (self).width == old(self).width,
            final (self).height == old(self).height,
            final (self).mine_amount == old(self).mine_amount,
            final (self).won == old(self).won,
            final (self).revealed == old(self).revealed,
            final (self).fields@.len() == old(self).fields@.len(),
            forall|k: int|
                0 <= k < old(self).fields@.len() ==> (#[trigger] final (self).fields@[k]).tile
                    == old(self).fields@[k].tile,
            forall|q: Position|
                q.valid(old(self).width, old(self).height) ==> (#[trigger] final (self).fields@[
                q.spec_index(old(self).width)]).visibility == (if q != *position
                    && position.spec_is_near(q) && old(self).fields@[q.spec_index(
                    old(self).width,
                )].visibility is Closed {
                    Visibility::Flagged
                } else {
                    old(self).fields@[q.spec_index(old(self).width)].visibility
                }),
    {
        broadcast use vstd::seq_lib::lemma_seq_contains_after_push;

        let ghost g0 = self.fields@;
        let ghost w = self.width;
        let ghost h = self.height;
        let ghost ma = self.mine_amount;
        proof {
            assert forall|q: Position| q.valid(w, h) implies 0 <= #[trigger] q.spec_index(w)
                < g0.len() by {
                crate::grid::lemma_index_bounds(w, h, q.x as int, q.y as int);
            }
        }
        let nbrs = position.neighbors(self.width, self.height);
        let n = nbrs.len();
        for j in 0..n
            invariant
                self.width == w,
                self.height == h,
                self.mine_amount == ma,
                self.won == old(self).won,
                self.won is Playing,
                self.revealed == old(self).revealed,
                self.mines.number == ma - count_flagged(self.fields@),
                self.fields@.len() == g0.len(),
                g0 == old(self).fields@,
                g0.len() == w * h,
                w > 0,
                h > 0,
                w * h <= max_cells(),
                ma <= w * h,
                all_wf(g0),
                numbers_correct(g0, w, h),
                no_mine_open(g0),
                count_mines(g0) == ma,
                old(self).revealed == count_open(g0),
                position.valid(w, h),
                n == nbrs.len(),
                forall|q: Position|
                    q.valid(w, h) ==> 0 <= #[trigger] q.spec_index(w) < g0.len(),
                forall|i: int|
                    0 <= i < g0.len() ==> (#[trigger] self.fields@[i]).tile == g0[i].tile,
                forall|p: Position|
                    #[trigger] nbrs@.contains(p) <==> (p.valid(w, h) && p != *position
                        && position.spec_is_near(p)),
                nbrs@.no_duplicates(),
                forall|q: Position|
                    q.valid(w, h) && nbrs@.take(j as int).contains(q) && g0[q.spec_index(
                        w,
                    )].visibility is Closed ==> (#[trigger] self.fields@[q.spec_index(
                        w,
                    )]).visibility is Flagged,
                forall|q: Position|
                    q.valid(w, h) && !(nbrs@.take(j as int).contains(q) && g0[q.spec_index(
                        w,
                    )].visibility is Closed) ==> (#[trigger] self.fields@[q.spec_index(
                        w,
                    )]).visibility == g0[q.spec_index(w)].visibility,
        {
            let q = nbrs[j];
            proof {
                assert(nbrs@.contains(q));
                if nbrs@.take(j as int).contains(q) {
                    let k = choose|k: int| 0 <= k < j && nbrs@.take(j as int)[k] == q;
                    assert(nbrs@[k] == q);
                    assert(false);
                }
                assert(nbrs@.take(j as int + 1) =~= nbrs@.take(j as int).push(nbrs@[j as int]));
            }
            let qidx = q.index(self.width, self.height);
            let qf = self.fields[qidx];
            let ghost gpre = self.fields@;
            if qf.is_closed() {
                let mut nq = qf;
                nq.flag();
                self.fields.set(qidx, nq);
                proof {
                    lemma_count_cells_bounds(gpre, |f: Field| f.visibility is Flagged);
                    lemma_count_cells_update(
                        gpre,
                        |f: Field| f.visibility is Flagged,
                        qidx as int,
                        nq,
                    );
                }
                self.mines.number = self.mines.number - 1;
                proof {
                    assert forall|q2: Position|
                        q2.valid(w, h) && nbrs@.take(j as int + 1).contains(q2) && g0[
                        q2.spec_index(w)].visibility is Closed implies (#[trigger] self.fields@[
                    q2.spec_index(w)]).visibility is Flagged by {
                        if q2.spec_index(w) == qidx as int {
                        } else {
                            assert(self.fields@[q2.spec_index(w)] == gpre[q2.spec_index(w)]);
                            assert(q2 != q);
                            assert(nbrs@.take(j as int).contains(q2));
                        }
                    }
                    assert forall|q2: Position|
                        q2.valid(w, h) && !(nbrs@.take(j as int + 1).contains(q2) && g0[
                        q2.spec_index(w)].visibility is Closed) implies (#[trigger] self.fields@[
                    q2.spec_index(w)]).visibility == g0[q2.spec_index(w)].visibility by {
                        if q2.spec_index(w) == qidx as int {
                            assert(q.valid(w, h));
                            lemma_index_injective(w, h, q2, q);
                            assert(q2 == q);
                            assert(nbrs@.take(j as int + 1)[j as int] == q2);
                            assert(nbrs@.take(j as int + 1).contains(q2));
                            assert(g0[q.spec_index(w)].visibility == gpre[q.spec_index(
                                w,
                            )].visibility);
                            assert(false);
                        } else {
                            assert(self.fields@[q2.spec_index(w)] == gpre[q2.spec_index(w)]);
                            assert(!(nbrs@.take(j as int).contains(q2) && g0[q2.spec_index(
                                w,
                            )].visibility is Closed));
                        }
                    }
                }
            } else {
                proof {
                    assert forall|q2: Position|
                        q2.valid(w, h) && nbrs@.take(j as int + 1).contains(q2) && g0[
                        q2.spec_index(w)].visibility is Closed implies (#[trigger] self.fields@[
                    q2.spec_index(w)]).visibility is Flagged by {
                        if q2 == q {
                            assert((self.fields@[q.spec_index(w)]).visibility == g0[q.spec_index(
                                w,
                            )].visibility);
                            assert(false);
                        } else {
                            assert(nbrs@.take(j as int).contains(q2));
                        }
                    }
                    assert forall|q2: Position|
                        q2.valid(w, h) && !(nbrs@.take(j as int + 1).contains(q2) && g0[
                        q2.spec_index(w)].visibility is Closed) implies (#[trigger] self.fields@[
                    q2.spec_index(w)]).visibility == g0[q2.spec_index(w)].visibility by {
                        assert(!(nbrs@.take(j as int).contains(q2) && g0[q2.spec_index(
                            w,
                        )].visibility is Closed));
                    }
                }
            }
        }
        proof {
            assert(nbrs@.take(n as int) =~= nbrs@);
            let g1 = self.fields@;
            assert forall|q: Position| q.valid(w, h) implies (#[trigger] g1[q.spec_index(
                w,
            )]).visibility == (if q != *position && position.spec_is_near(q) && g0[q.spec_index(
                w,
            )].visibility is Closed {
                Visibility::Flagged
            } else {
                g0[q.spec_index(w)].visibility
            }) by {
                if q != *position && position.spec_is_near(q) {
                    assert(nbrs@.contains(q));
                } else {
                    assert(!nbrs@.contains(q));
                }
            }
            lemma_tiles_preserved_props(g0, g1, w, h);
            assert forall|i: int|
                0 <= i < g1.len() implies ((#[trigger] g1[i]).visibility is Open <==> g0[
            i].visibility is Open) by {
                lemma_index_to_xy(w, h, i);
                let q = Position { x: (i % (w as int)) as usize, y: (i / (w as int)) as usize };
                assert(q.spec_index(w) == i);
                assert(q.valid(w, h));
                assert(g1[q.spec_index(w)].visibility is Open <==> g0[q.spec_index(
                    w,
                )].visibility is Open);
            }
            lemma_count_cells_agree(g1, g0, |f: Field| f.visibility is Open);
            assert forall|i: int|
                0 <= i < g1.len() && (#[trigger] g1[i]).tile is Mine implies !(g1[
            i].visibility is Open) by {
                lemma_index_to_xy(w, h, i);
                let q = Position { x: (i % (w as int)) as usize, y: (i / (w as int)) as usize };
                assert(q.spec_index(w) == i);
                assert(q.valid(w, h));
                assert(!(g0[i].visibility is Open));
            }
        }
    }
}

/// The cell `q2` was opened by chording at `p`: it is a closed neighbor
/// of `p`, or the flood from one reaches it.
pub open spec fn opened_by_chord(g0: Seq<Field>, w: usize, h: usize, p: Position, q2: Position) -> bool {
    exists|m: Position|
        {
            &&& #[trigger] p.spec_is_near(m)
            &&& m.valid(w, h)
            &&& m != p
            &&& g0[m.spec_index(w)].visibility is Closed
            &&& (q2 == m || cascade_reach(g0, w, h, m, q2))
        }
}

/// The condition under which an open cell chord-reveals: it shows a number
/// equal to its count of flagged neighbors, with at least one closed
/// neighbor left to open.
pub open spec fn chord_reveal_fires(g: Seq<Field>, w: usize, h: usize, p: Position) -> bool {
    let i = p.spec_index(w);
    &&& g[i].visibility is Open
    &&& g[i].tile is Number
    &&& closed_neighbor_count(g, w, h, p.x as int, p.y as int) > 0
    &&& flagged_neighbor_count(g, w, h, p.x as int, p.y as int) == g[i].tile->Number_0
}

/// No closed neighbor of `p` hides a mine: the flags around `p` are right,
/// so a chord-reveal there is safe.
pub open spec fn no_closed_mine_neighbor(g: Seq<Field>, w: usize, h: usize, p: Position) -> bool {
    forall|q: Position|
        q.valid(w, h) && p.spec_is_near(q) && q != p && (#[trigger] g[q.spec_index(
            w,
        )]).visibility is Closed ==> !(g[q.spec_index(w)].tile is Mine)
}

/// What `Fields::reveal` does, as a relation between the state before the
/// call, the state after it, the revealed position, the primary-click
/// flag, and the returned signal.
pub open spec fn reveal_post(
    pre: Fields,
    post: Fields,
    p: Position,
    first: bool,
    r: Option<bool>,
) -> bool {
    let w = pre.width;
    let h = pre.height;
    let g0 = pre.fields@;
    let g1 = post.fields@;
    let i = p.spec_index(w);
    &&& post.width == w
    &&& post.height == h
    &&& post.mine_amount == pre.mine_amount
    &&& post.mines == pre.mines
    &&& g1.len() == g0.len()
    &&& (forall|k: int| 0 <= k < g0.len() ==> (#[trigger] g1[k]).tile == g0[k].tile)
    &&& if !(pre.won is Playing) {
        &&& g1 == g0
        &&& post.won == pre.won
        &&& post.revealed == pre.revealed
        &&& r is None
    } else if g0[i].visibility is Flagged {
        &&& g1 == g0
        &&& post.won == pre.won
        &&& post.revealed == pre.revealed
        &&& r is None
    } else if g0[i].visibility is Closed {
        &&& r == Some(false)
        &&& if g0[i].tile is Mine {
            &&& post.won == Won::Lost(p)
            &&& post.revealed == pre.revealed + 1
            &&& forall|k: int|
                0 <= k < g0.len() ==> (#[trigger] g1[k]).visibility == (if g0[k].tile is Mine && !(
                g0[k].visibility is Flagged) {
                    Visibility::Open
                } else {
                    g0[k].visibility
                })
        } else if g0[i].tile is Empty {
            &&& post.won == pre.won
            &&& post.revealed == count_open(g1)
            &&& forall|k: int|
                0 <= k < g0.len() ==> (#[trigger] g1[k]).visibility == g0[k].visibility || (
                g0[k].visibility is Closed && g1[k].visibility is Open)
            &&& forall|q: Position|
                q.valid(w, h) ==> ((#[trigger] g1[q.spec_index(w)]).visibility is Open <==> (g0[
                q.spec_index(w)].visibility is Open || (g0[q.spec_index(w)].visibility is Closed
                    && cascade_reach(g0, w, h, p, q))))
        } else {
            &&& post.won == pre.won
            &&& post.revealed == pre.revealed + 1
            &&& g1 == g0.update(i, Field { tile: g0[i].tile, visibility: Visibility::Open })
        }
    } else if first && chord_reveal_fires(g0, w, h, p) {
        &&& r == Some(true)
        &&& (post.won == pre.won || post.won is Lost)
        &&& (post.won != pre.won ==> (post.won matches Won::Lost(q) && q.valid(w, h)
            && p.spec_is_near(q) && q != p && g0[q.spec_index(w)].visibility is Closed && g0[
            q.spec_index(w)].tile is Mine))
        &&& forall|k: int|
            0 <= k < g0.len() ==> (#[trigger] g1[k]).visibility == g0[k].visibility || (
            g0[k].visibility is Closed && g1[k].visibility is Open)
        &&& (post.won is Playing ==> forall|q: Position|
            q.valid(w, h) && p.spec_is_near(q) && q != p && g0[q.spec_index(
                w,
            )].visibility is Closed ==> (#[trigger] g1[q.spec_index(w)]).visibility is Open)
        &&& (no_closed_mine_neighbor(g0, w, h, p) ==> post.won == pre.won)
        &&& (post.won == pre.won ==> forall|q2: Position|
            q2.valid(w, h) && (#[trigger] g1[q2.spec_index(w)]).visibility is Open && g0[
            q2.spec_index(w)].visibility is Closed ==> opened_by_chord(g0, w, h, p, q2))
    } else {
        &&& g1 == g0
        &&& post.won == pre.won
        &&& post.revealed == pre.revealed
        &&& r is None
    }
}

impl Fields {
    /// After a loss, force-open every mine that is not flagged.
    fn open_unflagged_mines(&mut self)
        requires
            old(self).wf(),
            !(old(self).won is Playing),
        ensures
            final (self).wf(),
            final (self).width == old(self).width,
            final (self).height == old(self).height,
            final (self).mine_amount == old(self).mine_amount,
            final (self).mines == old(self).mines,
            final (self).revealed == old(self).revealed,
            final (self).won == old(self).won,
            final (self).fields@.len() == old(self).fields@.len(),
            forall|k: int|
                0 <= k < old(self).fields@.len() ==> (#[trigger] final (self).fields@[k]).tile
                    == old(self).fields@[k].tile,
            forall|k: int|
                0 <= k < old(self).fields@.len() ==> (#[trigger] final (self).fields@[k]).visibility == (if old(self).fields@[k].tile is Mine && !(old(
                    self,
                ).fields@[k].visibility is Flagged) {
                    Visibility::Open
                } else {
                    old(self).fields@[k].visibility
                }),
    {
        let ghost g0 = self.fields@;
        let ghost w = self.width;
        let ghost h = self.height;
        let n = self.fields.len();
        for i in 0..n
            invariant
                self.width == w,
                self.height == h,
                self.mine_amount == old(self).mine_amount,
                self.mines == old(self).mines,
                self.revealed == old(self).revealed,
                self.won == old(self).won,
                !(self.won is Playing),
                g0 == old(self).fields@,
                n == g0.len(),
                g0.len() == w * h,
                self.fields@.len() == g0.len(),
                forall|k: int|
                    0 <= k < g0.len() ==> (#[trigger] self.fields@[k]).tile == g0[k].tile,
                forall|k: int|
                    0 <= k < g0.len() ==> (#[trigger] self.fields@[k]).visibility == (if k < i
                        && g0[k].tile is Mine && !(g0[k].visibility is Flagged) {
                        Visibility::Open
                    } else {
                        g0[k].visibility
                    }),
        {
            let fi = self.fields[i];
            if fi.is_mine() && !fi.is_flagged() {
                let mut nf = fi;
                nf.open();
                self.fields.set(i, nf);
            }
        }
        proof {
            lemma_tiles_preserved_props(g0, self.fields@, w, h);
        }
    }

    /// Opens the closed empty cell at `position` and floods outward: the
    /// whole connected zero-region around it, plus its numbered border, as
    /// cut off by flags and already-open cells. Runs on a work list rather
    /// than by recursion, so the depth is independent of the board size.
    fn cascade_from(&mut self, position: &Position)
        requires
            old(self).wf(),
            old(self).won is Playing,
            position.valid(old(self).width, old(self).height),
            old(self).fields@[position.spec_index(old(self).width)].visibility is Closed,
            old(self).fields@[position.spec_index(old(self).width)].tile is Empty,
        ensures
            final (self).wf(),
            final (self).width == old(self).width,
            final (self).height == old(self).height,
            final (self).mine_amount == old(self).mine_amount,
            final (self).mines == old(self).mines,
            final (self).won == old(self).won,
            final (self).revealed == count_open(final (self).fields@),
            final (self).fields@.len() == old(self).fields@.len(),
            forall|k: int|
                0 <= k < old(self).fields@.len() ==> (#[trigger] final (self).fields@[k]).tile
                    == old(self).fields@[k].tile,
            forall|k: int|
                0 <= k < old(self).fields@.len() ==> (#[trigger] final (self).fields@[k]).visibility == old(self).fields@[k].visibility || (old(
                    self,
                ).fields@[k].visibility is Closed && final (self).fields@[k].visibility is Open),
            forall|q: Position|
                q.valid(old(self).width, old(self).height) ==> ((#[trigger] final (self).fields@[
                q.spec_index(old(self).width)]).visibility is Open <==> (old(self).fields@[
                q.spec_index(old(self).width)].visibility is Open || (old(self).fields@[
                q.spec_index(old(self).width)].visibility is Closed && cascade_reach(
                    old(self).fields@,
                    old(self).width,
                    old(self).height,
                    *position,
                    q,
                )))),
    {
        let ghost g0 = self.fields@;
        let ghost w = self.width;
        let ghost h = self.height;
        let ghost ma = self.mine_amount;
        proof {
            assert forall|q: Position| q.valid(w, h) implies 0 <= #[trigger] q.spec_index(w)
                < g0.len() by {
                lemma_index_bounds(w, h, q.x as int, q.y as int);
            }
        }
        let idx = position.index(self.width, self.height);
        let f = self.fields[idx];
        let mut nf = f;
        nf.open();
        self.fields.set(idx, nf);
        proof {
            lemma_count_cells_update(g0, |ff: Field| ff.visibility is Open, idx as int, nf);
            lemma_count_cells_bounds(self.fields@, |ff: Field| ff.visibility is Open);
            lemma_reach_start(g0, w, h, *position);
        }
        self.revealed = self.revealed + 1;
        let mut stack: Vec<Position> = Vec::new();
        stack.push(*position);
        proof {
            lemma_count_cells_bounds(self.fields@, |ff: Field| ff.visibility is Closed);
            assert(stack@[0] == *position);
            assert(stack@.contains(*position));
            assert forall|q: Position|
                q.valid(w, h) && (#[trigger] self.fields@[q.spec_index(w)]).visibility is Open
                    && g0[q.spec_index(w)].visibility is Closed implies cascade_reach(
                g0,
                w,
                h,
                *position,
                q,
            ) by {
                lemma_index_bounds(w, h, q.x as int, q.y as int);
                if q.spec_index(w) == idx as int {
                    lemma_index_injective(w, h, q, *position);
                }
            }
            assert forall|c: Position, q: Position|
                c.valid(w, h) && (#[trigger] self.fields@[c.spec_index(w)]).visibility is Open
                    && g0[c.spec_index(w)].tile is Empty && g0[c.spec_index(
                    w,
                )].visibility is Closed && !stack@.contains(c) && q.valid(w, h) && c.spec_is_near(
                    q,
                ) && q != c implies !((#[trigger] self.fields@[q.spec_index(
                w,
            )]).visibility is Closed) by {
                lemma_index_bounds(w, h, c.x as int, c.y as int);
                if c.spec_index(w) == idx as int {
                    lemma_index_injective(w, h, c, *position);
                    assert(false);
                } else {
                    assert(false);
                }
            }
        }
        while stack.len() > 0
            invariant
                self.width == w,
                self.height == h,
                self.mine_amount == ma,
                self.won == old(self).won,
                self.won is Playing,
                self.mines == old(self).mines,
                g0 == old(self).fields@,
                g0.len() == w * h,
                w > 0,
                h > 0,
                w * h <= max_cells(),
                ma <= w * h,
                self.fields@.len() == g0.len(),
                all_wf(g0),
                numbers_correct(g0, w, h),
                no_mine_open(g0),
                count_mines(g0) == ma,
                position.valid(w, h),
                g0[position.spec_index(w)].visibility is Closed,
                g0[position.spec_index(w)].tile is Empty,
                self.fields@[position.spec_index(w)].visibility is Open,
                forall|q: Position| q.valid(w, h) ==> 0 <= #[trigger] q.spec_index(w) < g0.len(),
                forall|k: int|
                    0 <= k < g0.len() ==> (#[trigger] self.fields@[k]).tile == g0[k].tile,
                forall|k: int|
                    0 <= k < g0.len() ==> (#[trigger] self.fields@[k]).visibility == g0[
                    k].visibility || (g0[k].visibility is Closed && self.fields@[
                    k].visibility is Open),
                forall|q: Position|
                    q.valid(w, h) && (#[trigger] self.fields@[q.spec_index(
                        w,
                    )]).visibility is Open && g0[q.spec_index(w)].visibility is Closed
                        ==> cascade_reach(g0, w, h, *position, q),
                forall|j: int|
                    0 <= j < stack@.len() ==> ((#[trigger] stack@[j]).valid(w, h) && g0[stack@[
                    j].spec_index(w)].tile is Empty && g0[stack@[j].spec_index(
                        w,
                    )].visibility is Closed && self.fields@[stack@[j].spec_index(
                        w,
                    )].visibility is Open && cascade_reach(g0, w, h, *position, stack@[j])),
                forall|c: Position, q: Position|
                    #![trigger self.fields@[c.spec_index(w)], self.fields@[q.spec_index(w)]]
                    c.valid(w, h) && self.fields@[c.spec_index(w)].visibility is Open && g0[
                    c.spec_index(w)].tile is Empty && g0[c.spec_index(w)].visibility is Closed
                        && !stack@.contains(c) && q.valid(w, h) && c.spec_is_near(q) && q != c
                        ==> !(self.fields@[q.spec_index(w)].visibility is Closed),
                no_mine_open(self.fields@),
                self.revealed == count_open(self.fields@),
                0 <= count_closed(self.fields@),
            decreases 2 * count_closed(self.fields@) + stack@.len(),
        {
            let ghost stack0 = stack@;
            let ghost gm = self.fields@;
            let m = stack.pop().unwrap();
            proof {
                assert(m == stack0.last());
                assert forall|c: Position, q: Position|
                    c.valid(w, h) && (#[trigger] self.fields@[c.spec_index(w)]).visibility is Open
                        && g0[c.spec_index(w)].tile is Empty && g0[c.spec_index(
                        w,
                    )].visibility is Closed && !stack@.contains(c) && c != m && q.valid(w, h)
                        && c.spec_is_near(q) && q != c implies !((#[trigger] self.fields@[
                q.spec_index(w)]).visibility is Closed) by {
                    if stack0.contains(c) {
                        let ii = choose|ii: int| 0 <= ii < stack0.len() && stack0[ii] == c;
                        assert(ii != stack0.len() - 1);
                        assert(stack@[ii] == c);
                        assert(stack@.contains(c));
                        assert(false);
                    }
                }
            }
            let nbrs = m.neighbors(self.width, self.height);
            let n = nbrs.len();
            for j in 0..n
                invariant
                    self.width == w,
                    self.height == h,
                    self.mine_amount == ma,
                    self.won == old(self).won,
                    self.won is Playing,
                    self.mines == old(self).mines,
                    g0 == old(self).fields@,
                    g0.len() == w * h,
                    w > 0,
                    h > 0,
                    w * h <= max_cells(),
                    ma <= w * h,
                    self.fields@.len() == g0.len(),
                    all_wf(g0),
                    numbers_correct(g0, w, h),
                    no_mine_open(g0),
                    count_mines(g0) == ma,
                    position.valid(w, h),
                    g0[position.spec_index(w)].visibility is Closed,
                    g0[position.spec_index(w)].tile is Empty,
                    self.fields@[position.spec_index(w)].visibility is Open,
                    forall|q: Position|
                        q.valid(w, h) ==> 0 <= #[trigger] q.spec_index(w) < g0.len(),
                    forall|k: int|
                        0 <= k < g0.len() ==> (#[trigger] self.fields@[k]).tile == g0[k].tile,
                    forall|k: int|
                        0 <= k < g0.len() ==> (#[trigger] self.fields@[k]).visibility == g0[
                        k].visibility || (g0[k].visibility is Closed && self.fields@[
                        k].visibility is Open),
                    forall|q: Position|
                        q.valid(w, h) && (#[trigger] self.fields@[q.spec_index(
                            w,
                        )]).visibility is Open && g0[q.spec_index(w)].visibility is Closed
                            ==> cascade_reach(g0, w, h, *position, q),
                    forall|jj: int|
                        0 <= jj < stack@.len() ==> ((#[trigger] stack@[jj]).valid(w, h) && g0[
                        stack@[jj].spec_index(w)].tile is Empty && g0[stack@[jj].spec_index(
                            w,
                        )].visibility is Closed && self.fields@[stack@[jj].spec_index(
                            w,
                        )].visibility is Open && cascade_reach(g0, w, h, *position, stack@[jj])),
                    m.valid(w, h),
                    g0[m.spec_index(w)].tile is Empty,
                    g0[m.spec_index(w)].visibility is Closed,
                    self.fields@[m.spec_index(w)].visibility is Open,
                    cascade_reach(g0, w, h, *position, m),
                    n == nbrs.len(),
                    forall|p: Position|
                        #[trigger] nbrs@.contains(p) <==> (p.valid(w, h) && p != m
                            && m.spec_is_near(p)),
                    nbrs@.no_duplicates(),
                    forall|jj: int|
                        0 <= jj < j ==> !((#[trigger] self.fields@[nbrs@[jj].spec_index(
                            w,
                        )]).visibility is Closed),
                    forall|c: Position, q: Position|
                        #![trigger self.fields@[c.spec_index(w)], self.fields@[q.spec_index(w)]]
                        c.valid(w, h) && self.fields@[c.spec_index(w)].visibility is Open && g0[
                        c.spec_index(w)].tile is Empty && g0[c.spec_index(
                            w,
                        )].visibility is Closed && !stack@.contains(c) && c != m && q.valid(w, h)
                            && c.spec_is_near(q) && q != c ==> !(self.fields@[q.spec_index(
                            w,
                        )].visibility is Closed),
                    no_mine_open(self.fields@),
                    self.revealed == count_open(self.fields@),
                    0 <= count_closed(self.fields@),
                    2 * count_closed(self.fields@) + stack@.len() <= 2 * count_closed(gm)
                        + stack0.len() - 1,
            {
                let q = nbrs[j];
                proof {
                    assert(nbrs@.contains(q));
                }
                let qidx = q.index(self.width, self.height);
                let qf = self.fields[qidx];
                let ghost gpre = self.fields@;
                let ghost stackpre = stack@;
                if qf.is_closed() {
                    proof {
                        assert(g0[qidx as int].visibility is Closed);
                        lemma_empty_has_no_mine_neighbor(g0, w, h, m, q);
                        assert(cascade_step(g0, w, h, m, q));
                        lemma_reach_step(g0, w, h, *position, m, q);
                    }
                    let mut nq = qf;
                    nq.open();
                    self.fields.set(qidx, nq);
                    proof {
                        lemma_count_cells_update(
                            gpre,
                            |ff: Field| ff.visibility is Open,
                            qidx as int,
                            nq,
                        );
                        lemma_count_cells_update(
                            gpre,
                            |ff: Field| ff.visibility is Closed,
                            qidx as int,
                            nq,
                        );
                        lemma_count_cells_bounds(self.fields@, |ff: Field| ff.visibility is Open);
                        lemma_count_cells_bounds(gpre, |ff: Field| ff.visibility is Closed);
                        lemma_count_cells_bounds(self.fields@, |ff: Field| ff.visibility is Closed);
                    }
                    self.revealed = self.revealed + 1;
                    let is_empty_tile = matches!(nq.get_tile(), Tile::Empty);
                    if is_empty_tile {
                        stack.push(q);
                        proof {
                            assert(stack@.last() == q);
                            assert(stack@.contains(q));
                        }
                    }
                    proof {
                        assert forall|q2: Position|
                            q2.valid(w, h) && (#[trigger] self.fields@[q2.spec_index(
                                w,
                            )]).visibility is Open && g0[q2.spec_index(w)].visibility is Closed
                                implies cascade_reach(g0, w, h, *position, q2) by {
                            if q2.spec_index(w) == qidx as int {
                                lemma_index_injective(w, h, q2, q);
                            } else {
                                assert(self.fields@[q2.spec_index(w)] == gpre[q2.spec_index(w)]);
                                assert(gpre[q2.spec_index(w)].visibility is Open);
                            }
                        }
                        assert forall|c: Position, q2: Position|
                            c.valid(w, h) && (#[trigger] self.fields@[c.spec_index(
                                w,
                            )]).visibility is Open && g0[c.spec_index(w)].tile is Empty && g0[
                        c.spec_index(w)].visibility is Closed && !stack@.contains(c) && c != m
                            && q2.valid(w, h) && c.spec_is_near(q2) && q2 != c implies !((
                        #[trigger] self.fields@[q2.spec_index(w)]).visibility is Closed) by {
                            if c.spec_index(w) == qidx as int {
                                lemma_index_injective(w, h, c, q);
                                assert(c == q);
                                assert(g0[qidx as int].tile is Empty);
                                assert(stack@.contains(c));
                                assert(false);
                            } else {
                                assert(self.fields@[c.spec_index(w)] == gpre[c.spec_index(w)]);
                                assert(gpre[c.spec_index(w)].visibility is Open);
                                if stackpre.contains(c) {
                                    let ii = choose|ii: int|
                                        0 <= ii < stackpre.len() && stackpre[ii] == c;
                                    assert(stack@[ii] == c);
                                    assert(stack@.contains(c));
                                    assert(false);
                                }
                                if q2.spec_index(w) == qidx as int {
                                } else {
                                    assert(self.fields@[q2.spec_index(w)] == gpre[q2.spec_index(
                                        w,
                                    )]);
                                    assert(!(gpre[q2.spec_index(w)].visibility is Closed));
                                }
                            }
                        }
                    }
                }
                proof {
                    assert forall|jj: int| 0 <= jj < j + 1 implies !((#[trigger] self.fields@[
                    nbrs@[jj].spec_index(w)]).visibility is Closed) by {
                        assert(nbrs@.contains(nbrs@[jj]));
                        if jj == j {
                            assert(nbrs@[jj] == q);
                        }
                    }
                }
            }
            proof {
                assert forall|q2: Position|
                    q2.valid(w, h) && m.spec_is_near(q2) && q2 != m implies !((self.fields@[
                q2.spec_index(w)]).visibility is Closed) by {
                    assert(nbrs@.contains(q2));
                    let jj = choose|jj: int| 0 <= jj < nbrs@.len() && nbrs@[jj] == q2;
                    assert(!((self.fields@[nbrs@[jj].spec_index(w)]).visibility is Closed));
                }
                assert forall|c: Position, q: Position|
                    c.valid(w, h) && (#[trigger] self.fields@[c.spec_index(
                        w,
                    )]).visibility is Open && g0[c.spec_index(w)].tile is Empty && g0[
                c.spec_index(w)].visibility is Closed && !stack@.contains(c) && q.valid(w, h)
                    && c.spec_is_near(q) && q != c implies !((#[trigger] self.fields@[
                q.spec_index(w)]).visibility is Closed) by {
                    if c != m {
                    }
                }
            }
        }
        proof {
            let g1 = self.fields@;
            lemma_tiles_preserved_props(g0, g1, w, h);
            assert forall|i: int|
                0 <= i < g1.len() implies ((#[trigger] g1[i]).visibility is Flagged <==> g0[
            i].visibility is Flagged) by {}
            lemma_count_cells_agree(g1, g0, |ff: Field| ff.visibility is Flagged);
            assert forall|q: Position| q.valid(w, h) implies ((#[trigger] g1[q.spec_index(
                w,
            )]).visibility is Open <==> (g0[q.spec_index(w)].visibility is Open || (g0[
            q.spec_index(w)].visibility is Closed && cascade_reach(g0, w, h, *position, q)))) by {
                if g0[q.spec_index(w)].visibility is Closed && cascade_reach(
                    g0,
                    w,
                    h,
                    *position,
                    q,
                ) {
                    lemma_cascade_complete(g0, g1, w, h, *position, q);
                }
            }
        }
    }

    /// A single (non-chording) reveal: opens a closed cell, cascading from
    /// an empty one, detonating a mine, terminal for a number. No-op on
    /// open or flagged cells and once the session is decided.
    fn reveal_step(&mut self, position: &Position) -> (r: Option<bool>)
        requires
            old(self).wf(),
            position.valid(old(self).width, old(self).height),
        ensures
            final (self).wf(),
            reveal_post(*old(self), *final (self), *position, false, r),
    {
        if !self.won.still_playing() {
            return None;
        }
        let ghost g0 = self.fields@;
        let ghost w = self.width;
        let ghost h = self.height;
        let idx = position.index(self.width, self.height);
        let f = self.fields[idx];
        match f.get_visibility() {
            Visibility::Flagged => None,
            Visibility::Open => None,
            Visibility::Closed => {
                match f.get_tile() {
                    Tile::Mine => {
                        proof {
                            lemma_count_cells_bounds(g0, |ff: Field| ff.visibility is Open);
                        }
                        self.won.lose(*position);
                        self.revealed = self.revealed + 1;
                        self.open_unflagged_mines();
                        Some(false)
                    },
                    Tile::Empty => {
                        self.cascade_from(position);
                        Some(false)
                    },
                    Tile::Number(_) => {
                        let mut nf = f;
                        nf.open();
                        self.fields.set(idx, nf);
                        proof {
                            lemma_count_cells_update(
                                g0,
                                |ff: Field| ff.visibility is Open,
                                idx as int,
                                nf,
                            );
                            lemma_count_cells_update(
                                g0,
                                |ff: Field| ff.visibility is Flagged,
                                idx as int,
                                nf,
                            );
                            lemma_count_cells_bounds(self.fields@, |ff: Field| ff.visibility is Open);
                            lemma_tiles_preserved_props(g0, self.fields@, w, h);
                        }
                        self.revealed = self.revealed + 1;
                        Some(false)
                    },
                }
            },
        }
    }
}

impl Fields {
    /// The chord action: reveals every closed neighbor of `position`, each
    /// as a non-primary reveal, stopping (as no-ops) once a wrongly flagged
    /// mine has detonated.
    fn reveal_closed_neighbors(&mut self, position: &Position)
        requires
            old(self).wf(),
            old(self).won is Playing,
            position.valid(old(self).width, old(self).height),
        ensures
            final (self).wf(),
            final (self).width == old(self).width,
            final (self).height == old(self).height,
            final (self).mine_amount == old(self).mine_amount,
            final (self).mines == old(self).mines,
            final (self).fields@.len() == old(self).fields@.len(),
            forall|k: int|
                0 <= k < old(self).fields@.len() ==> (#[trigger] final (self).fields@[k]).tile
                    == old(self).fields@[k].tile,
            forall|k: int|
                0 <= k < old(self).fields@.len() ==> (#[trigger] final (self).fields@[k]).visibility == old(self).fields@[k].visibility || (old(
                    self,
                ).fields@[k].visibility is Closed && final (self).fields@[k].visibility is Open),
            final (self).won == old(self).won || final (self).won is Lost,
            final (self).won != old(self).won ==> (final (self).won matches Won::Lost(q)
                && q.valid(old(self).width, old(self).height) && position.spec_is_near(q) && q
                != *position && old(self).fields@[q.spec_index(
                old(self).width,
            )].visibility is Closed && old(self).fields@[q.spec_index(
                old(self).width,
            )].tile is Mine),
            final (self).won is Playing ==> forall|q: Position|
                q.valid(old(self).width, old(self).height) && position.spec_is_near(q) && q
                    != *position && old(self).fields@[q.spec_index(
                    old(self).width,
                )].visibility is Closed ==> (#[trigger] final (self).fields@[q.spec_index(
                    old(self).width,
                )]).visibility is Open,
            no_closed_mine_neighbor(
                old(self).fields@,
                old(self).width,
                old(self).height,
                *position,
            ) ==> final (self).won == old(self).won,
            final (self).won == old(self).won ==> forall|q2: Position|
                q2.valid(old(self).width, old(self).height) && (#[trigger] final (self).fields@[
                q2.spec_index(old(self).width)]).visibility is Open && old(self).fields@[
                q2.spec_index(old(self).width)].visibility is Closed ==> opened_by_chord(
                    old(self).fields@,
                    old(self).width,
                    old(self).height,
                    *position,
                    q2,
                ),
    {
        let ghost g0 = self.fields@;
        let ghost w = self.width;
        let ghost h = self.height;
        let ghost ma = self.mine_amount;
        proof {
            assert forall|q: Position| q.valid(w, h) implies 0 <= #[trigger] q.spec_index(w)
                < g0.len() by {
                lemma_index_bounds(w, h, q.x as int, q.y as int);
            }
        }
        let nbrs = position.neighbors(self.width, self.height);
        let n = nbrs.len();
        for j in 0..n
            invariant
                self.width == w,
                self.height == h,
                self.mine_amount == ma,
                self.mines == old(self).mines,
                g0 == old(self).fields@,
                g0.len() == w * h,
                w > 0,
                h > 0,
                w * h <= max_cells(),
                ma <= w * h,
                self.fields@.len() == g0.len(),
                self.wf(),
                old(self).won is Playing,
                position.valid(w, h),
                forall|q: Position| q.valid(w, h) ==> 0 <= #[trigger] q.spec_index(w) < g0.len(),
                n == nbrs.len(),
                forall|p: Position|
                    #[trigger] nbrs@.contains(p) <==> (p.valid(w, h) && p != *position
                        && position.spec_is_near(p)),
                nbrs@.no_duplicates(),
                forall|k: int|
                    0 <= k < g0.len() ==> (#[trigger] self.fields@[k]).tile == g0[k].tile,
                forall|k: int|
                    0 <= k < g0.len() ==> (#[trigger] self.fields@[k]).visibility == g0[
                    k].visibility || (g0[k].visibility is Closed && self.fields@[
                    k].visibility is Open),
                self.won == old(self).won || self.won is Lost,
                self.won != old(self).won ==> (self.won matches Won::Lost(q) && q.valid(w, h)
                    && position.spec_is_near(q) && q != *position && g0[q.spec_index(
                    w,
                )].visibility is Closed && g0[q.spec_index(w)].tile is Mine),
                self.won is Playing ==> forall|jj: int|
                    0 <= jj < j && g0[nbrs@[jj].spec_index(w)].visibility is Closed ==> (
                    #[trigger] self.fields@[nbrs@[jj].spec_index(w)]).visibility is Open,
                no_closed_mine_neighbor(g0, w, h, *position) ==> self.won == old(self).won,
                self.won == old(self).won ==> forall|q2: Position|
                    q2.valid(w, h) && (#[trigger] self.fields@[q2.spec_index(
                        w,
                    )]).visibility is Open && g0[q2.spec_index(w)].visibility is Closed
                        ==> opened_by_chord(g0, w, h, *position, q2),
        {
            let q = nbrs[j];
            proof {
                assert(nbrs@.contains(q));
            }
            let ghost gpre = self.fields@;
            let ghost won_pre = self.won;
            let _opened = self.reveal_step(&q);
            proof {
                let gq = q.spec_index(w);
                if won_pre is Playing && gpre[gq].visibility is Closed
                    && gpre[gq].tile is Empty {
                    lemma_reach_start(gpre, w, h, q);
                }
                if no_closed_mine_neighbor(g0, w, h, *position) {
                    assert(self.fields@[gq].visibility == self.fields@[gq].visibility);
                    if won_pre is Playing && gpre[gq].visibility is Closed {
                        assert(g0[gq].visibility is Closed);
                        assert(!(g0[gq].tile is Mine));
                        assert(!(gpre[gq].tile is Mine));
                    }
                }
                if self.won == old(self).won {
                    assert forall|q2: Position|
                        q2.valid(w, h) && (#[trigger] self.fields@[q2.spec_index(
                            w,
                        )]).visibility is Open && g0[q2.spec_index(w)].visibility is Closed
                            implies opened_by_chord(g0, w, h, *position, q2) by {
                        if !(gpre[q2.spec_index(w)].visibility is Open) {
                            // opened by this very step, on the closed neighbor q
                            assert(won_pre == old(self).won);
                            assert(gpre[gq].visibility is Closed);
                            assert(g0[gq].visibility is Closed);
                            if q2.spec_index(w) == gq {
                                lemma_index_injective(w, h, q2, q);
                                assert(q2 == q);
                                assert(position.spec_is_near(q));
                                assert(opened_by_chord(g0, w, h, *position, q2));
                            } else {
                                // a flood from q: reachable on the grid as it stood,
                                // hence on the original grid
                                assert(gpre[gq].tile is Empty);
                                assert(cascade_reach(gpre, w, h, q, q2));
                                crate::cascade::lemma_reach_monotone(
                                    gpre,
                                    g0,
                                    w,
                                    h,
                                    q,
                                    q2,
                                );
                                assert(position.spec_is_near(q));
                                assert(opened_by_chord(g0, w, h, *position, q2));
                            }
                        }
                    }
                }
                if self.won is Playing {
                    assert forall|jj: int|
                        0 <= jj < j + 1 && g0[nbrs@[jj].spec_index(
                            w,
                        )].visibility is Closed implies (#[trigger] self.fields@[nbrs@[
                    jj].spec_index(w)]).visibility is Open by {
                        assert(nbrs@.contains(nbrs@[jj]));
                        let kk = nbrs@[jj].spec_index(w);
                        if jj == j {
                            assert(nbrs@[jj] == q);
                            if gpre[gq].visibility is Closed {
                                assert(won_pre is Playing);
                            } else {
                                assert(gpre[gq].visibility is Open);
                            }
                        } else {
                            assert(won_pre is Playing);
                            assert(gpre[kk].visibility is Open);
                        }
                    }
                }
            }
        }
        proof {
            if self.won is Playing {
                assert forall|q: Position|
                    q.valid(w, h) && position.spec_is_near(q) && q != *position && g0[
                q.spec_index(w)].visibility is Closed implies (#[trigger] self.fields@[
                q.spec_index(w)]).visibility is Open by {
                    assert(nbrs@.contains(q));
                    let jj = choose|jj: int| 0 <= jj < nbrs@.len() && nbrs@[jj] == q;
                    assert((self.fields@[nbrs@[jj].spec_index(w)]).visibility is Open);
                }
            }
        }
    }

    /// Reveal a cell.
    ///
    /// On a closed cell: open it; an empty tile floods its whole
    /// zero-region and numbered border, a mine loses the session and
    /// force-opens the unflagged mines, a number opens alone. Returns
    /// `Some(false)`. On an open number cell, when this is a primary click,
    /// its flagged neighbors number exactly its number and a closed
    /// neighbor remains: chord-reveals all closed neighbors and returns
    /// `Some(true)`. Anywhere else, and once the session is decided: no
    /// change, `None`.
    pub fn reveal_at(&mut self, position: &Position, first: bool) -> (r: Option<bool>)
        requires
            old(self).wf(),
            position.valid(old(self).width, old(self).height),
        ensures
            final (self).wf(),
            reveal_post(*old(self), *final (self), *position, first, r),
    {
        if !self.won.still_playing() {
            return None;
        }
        let idx = position.index(self.width, self.height);
        let f = self.fields[idx];
        if f.is_open() {
            if !first {
                return None;
            }
            let num: u8 = match f.get_tile() {
                Tile::Number(n) => n,
                _ => {
                    return None;
                },
            };
            let flagged = count_flagged_neighbors(&self.fields, self.width, self.height, position);
            let closed = count_closed_neighbors(&self.fields, self.width, self.height, position);
            if closed > 0 && (num as usize) == flagged {
                self.reveal_closed_neighbors(position);
                Some(true)
            } else {
                None
            }
        } else {
            self.reveal_step(position)
        }
    }
}

} // verus!
