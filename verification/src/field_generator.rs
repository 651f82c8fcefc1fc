//! Grid generation: the strategy interface, the random generator used for
//! live play, and the deterministic generator that rebuilds a replay's
//! board from its mine list. Both derive number tiles identically, so a
//! replayed board is cell-for-cell the board that was played.

use vstd::prelude::*;
use vstd::pervasive::VecAdditionalExecFns;
use vstd::set_lib::lemma_len_subset;

use crate::field::Field;
use crate::fields::max_cells;
use crate::grid::all_closed;
use crate::grid::all_wf;
use crate::grid::cell_numbered;
use crate::grid::count_mine_neighbors;
use crate::grid::count_mines;
use crate::grid::generated_grid;
use crate::grid::in_bounds;
use crate::grid::lemma_count_cells_all_false;
use crate::grid::lemma_count_cells_update;
use crate::grid::lemma_index_bounds;
use crate::grid::lemma_index_injective;
use crate::grid::lemma_index_to_xy;
use crate::grid::mine_at;
use crate::grid::mine_neighbor_count;
use crate::grid::numbers_correct;
use crate::position::Position;

verus! {

/// A way to produce the initial grid. Implementations promise a
/// well-formed generated grid; what else holds of it (where the mines may
/// lie) is the implementation's own `grid_ok`.
pub trait FieldGenerator {
    spec fn spec_width(&self) -> usize;

    spec fn spec_height(&self) -> usize;

    spec fn spec_mine_amount(&self) -> usize;

    spec fn wf(&self) -> bool;

    /// The promise this generator makes about the grid it hands out,
    /// beyond well-formedness: where its mines may or must lie.
    spec fn grid_ok(&self, g: Seq<Field>, exclude: Position) -> bool;

    proof fn wf_bounds(&self)
        requires
            self.wf(),
        ensures
            self.spec_width() > 0,
            self.spec_height() > 0,
            self.spec_width() * self.spec_height() <= max_cells(),
            self.spec_mine_amount() <= self.spec_width() * self.spec_height(),
    ;

    fn width(&self) -> (r: usize)
        requires
            self.wf(),
        ensures
            r == self.spec_width(),
    ;

    fn height(&self) -> (r: usize)
        requires
            self.wf(),
        ensures
            r == self.spec_height(),
    ;

    fn mine_amount(&self) -> (r: usize)
        requires
            self.wf(),
        ensures
            r == self.spec_mine_amount(),
    ;

    fn generate(&self, dont_surround: &Position) -> (r: Vec<Field>)
        requires
            self.wf(),
            dont_surround.valid(self.spec_width(), self.spec_height()),
        ensures
            generated_grid(
                r@,
                self.spec_width(),
                self.spec_height(),
                self.spec_mine_amount(),
            ),
            self.grid_ok(r@, *dont_surround),
    ;
}

/// Relies on rand::random_range over `0..n`: the draw lies in the range,
/// and the call panics on an empty range, so `n > 0` is required. The
/// value depends on a thread-local generator, so nothing more than its
/// bound is stated.
#[verifier::external_body]
fn random_index(n: usize) -> (r: usize)
    requires
        n > 0,
    ensures
        r < n,
{
    rand::random_range(0..n)
}

/// A grid of `width * height` fresh cells: closed and empty.
fn empty_grid(width: usize, height: usize) -> (r: Vec<Field>)
    requires
        width > 0,
        height > 0,
        width * height <= max_cells(),
    ensures
        r@.len() == width * height,
        forall|i: int|
            0 <= i < r@.len() ==> #[trigger] r@[i] == (Field {
                tile: crate::tile::Tile::Empty,
                visibility: crate::visibility::Visibility::Closed,
            }),
{
    let total = width * height;
    let mut r: Vec<Field> = Vec::new();
    for i in 0..total
        invariant
            r@.len() == i,
            forall|k: int|
                0 <= k < r@.len() ==> #[trigger] r@[k] == (Field {
                    tile: crate::tile::Tile::Empty,
                    visibility: crate::visibility::Visibility::Closed,
                }),
    {
        r.push(Field::new());
    }
    r
}

/// Neighbor-mine counts agree between two grids with the same mines.
proof fn lemma_mine_counts_agree(g0: Seq<Field>, g1: Seq<Field>, width: usize, height: usize)
    requires
        g0.len() == g1.len(),
        g0.len() == width * height,
        forall|i: int|
            0 <= i < g0.len() ==> ((#[trigger] g1[i]).tile is Mine <==> g0[i].tile is Mine),
    ensures
        forall|x: int, y: int|
            #![trigger mine_neighbor_count(g1, width, height, x, y)]
            mine_neighbor_count(g1, width, height, x, y) == mine_neighbor_count(
                g0,
                width,
                height,
                x,
                y,
            ),
{
    assert forall|ax: int, ay: int|
        mine_at(g1, width, height, ax, ay) == mine_at(g0, width, height, ax, ay) by {
        if in_bounds(width, height, ax, ay) {
            lemma_index_bounds(width, height, ax, ay);
        }
    }
    assert forall|x: int, y: int|
        mine_neighbor_count(g1, width, height, x, y) == mine_neighbor_count(
            g0,
            width,
            height,
            x,
            y,
        ) by {}
}

/// Writes every non-mine cell's number tile from its neighbor-mine count.
/// Mines and visibility are untouched, so both generators share it and
/// produce identical number derivation.
fn derive_numbers(fields: &mut Vec<Field>, width: usize, height: usize)
    requires
        width > 0,
        height > 0,
        width * height <= max_cells(),
        old(fields)@.len() == width * height,
        all_closed(old(fields)@),
    ensures
        final (fields)@.len() == old(fields)@.len(),
        all_closed(final (fields)@),
        all_wf(final (fields)@),
        numbers_correct(final (fields)@, width, height),
        forall|i: int|
            0 <= i < final (fields)@.len() ==> ((#[trigger] final (fields)@[i]).tile is Mine
                <==> old(fields)@[i].tile is Mine),
        count_mines(final (fields)@) == count_mines(old(fields)@),
{
    let ghost g0 = fields@;
    let total = width * height;
    for idx in 0..total
        invariant
            width > 0,
            height > 0,
            width * height <= max_cells(),
            total == width * height,
            g0 == old(fields)@,
            g0.len() == width * height,
            fields@.len() == g0.len(),
            all_closed(g0),
            forall|i: int|
                0 <= i < g0.len() ==> (#[trigger] fields@[i]).visibility == g0[i].visibility,
            forall|i: int|
                0 <= i < g0.len() ==> ((#[trigger] fields@[i]).tile is Mine <==> g0[
                i].tile is Mine),
            forall|i: int|
                0 <= i < g0.len() && g0[i].tile is Mine ==> (#[trigger] fields@[i]).tile
                    == g0[i].tile,
            forall|i: int|
                0 <= i < idx ==> (#[trigger] fields@[i]).wf(),
            forall|x: int, y: int|
                #![trigger cell_numbered(fields@, width, height, x, y)]
                in_bounds(width, height, x, y) && y * width + x < idx ==> cell_numbered(
                    fields@,
                    width,
                    height,
                    x,
                    y,
                ),
    {
        let pos = Position::from_index(idx, width);
        proof {
            lemma_index_to_xy(width, height, idx as int);
        }
        let f = fields[idx];
        let ghost gpre = fields@;
        if !f.is_mine() {
            let cnt = count_mine_neighbors(fields, width, height, &pos);
            let mut nf = f;
            nf.set_number(cnt);
            fields.set(idx, nf);
            proof {
                lemma_mine_counts_agree(gpre, fields@, width, height);
                assert forall|x: int, y: int|
                    in_bounds(width, height, x, y) && y * width + x < idx + 1
                        implies #[trigger] cell_numbered(fields@, width, height, x, y) by {
                    lemma_index_bounds(width, height, x, y);
                    if y * width + x < idx {
                        assert(cell_numbered(gpre, width, height, x, y));
                        assert(mine_neighbor_count(fields@, width, height, x, y)
                            == mine_neighbor_count(gpre, width, height, x, y));
                    } else {
                        assert(y * width + x == idx);
                        let qq = Position { x: x as usize, y: y as usize };
                        assert(qq.valid(width, height));
                        assert(pos.valid(width, height));
                        lemma_index_injective(width, height, qq, pos);
                        assert(x == pos.x as int && y == pos.y as int);
                        assert(mine_neighbor_count(fields@, width, height, x, y)
                            == mine_neighbor_count(gpre, width, height, x, y));
                        assert(crate::grid::cell_at(fields@, width, x, y) == fields@[idx as int]);
                    }
                }
            }
        } else {
            proof {
                assert forall|x: int, y: int|
                    in_bounds(width, height, x, y) && y * width + x < idx + 1
                        implies #[trigger] cell_numbered(fields@, width, height, x, y) by {
                    lemma_index_bounds(width, height, x, y);
                    if y * width + x == idx {
                        assert(fields@[idx as int].tile is Mine);
                    }
                }
            }
        }
    }
    proof {
        assert forall|x: int, y: int|
            in_bounds(width, height, x, y) implies #[trigger] cell_numbered(
            fields@,
            width,
            height,
            x,
            y,
        ) by {
            lemma_index_bounds(width, height, x, y);
        }
        assert forall|i: int| 0 <= i < fields@.len() implies (#[trigger] fields@[i]).wf() by {}
        let pred = |f: Field| f.tile is Mine;
        crate::grid::lemma_count_cells_agree(fields@, g0, pred);
    }
}

/// The live-play generator: places `mine_count` mines uniformly at random
/// among the cells not within Chebyshev distance 1 of the first-clicked
/// position, then derives the number tiles.
pub struct PlayFieldGenerator {
    pub width: usize,
    pub height: usize,
    pub mine_count: usize,
}

impl FieldGenerator for PlayFieldGenerator {
    open spec fn spec_width(&self) -> usize {
        self.width
    }

    open spec fn spec_height(&self) -> usize {
        self.height
    }

    open spec fn spec_mine_amount(&self) -> usize {
        self.mine_count
    }

    /// The safe zone around the first click covers at most 9 cells, so a
    /// board with `mine_count + 9` cells always has room for the mines.
    open spec fn wf(&self) -> bool {
        &&& self.width > 0
        &&& self.height > 0
        &&& self.width * self.height <= max_cells()
        &&& self.mine_count + 9 <= self.width * self.height
    }

    /// No mine lies within Chebyshev distance 1 of the excluded position.
    open spec fn grid_ok(&self, g: Seq<Field>, exclude: Position) -> bool {
        forall|q: Position|
            q.valid(self.width, self.height) && (#[trigger] g[q.spec_index(
                self.width,
            )]).tile is Mine ==> !exclude.spec_is_near(q)
    }

    proof fn wf_bounds(&self) {
    }

    fn width(&self) -> (r: usize) {
        self.width
    }

    fn height(&self) -> (r: usize) {
        self.height
    }

    fn mine_amount(&self) -> (r: usize) {
        self.mine_count
    }

    fn generate(&self, dont_surround: &Position) -> (r: Vec<Field>) {
        let width = self.width;
        let height = self.height;
        let mine_count = self.mine_count;
        let ghost w = width;
        let ghost h = height;
        let total = width * height;
        let mut fields = empty_grid(width, height);
        proof {
            assert forall|q: Position| q.valid(w, h) implies 0 <= #[trigger] q.spec_index(w)
                < total by {
                lemma_index_bounds(w, h, q.x as int, q.y as int);
            }
        }
        let ghost ex = dont_surround.x as int;
        let ghost ey = dont_surround.y as int;
        let ghost wi = width as int;
        let ghost zone9: Set<int> = set![
            (ey - 1) * wi + ex - 1,
            (ey - 1) * wi + ex,
            (ey - 1) * wi + ex + 1,
            ey * wi + ex - 1,
            ey * wi + ex,
            ey * wi + ex + 1,
            (ey + 1) * wi + ex - 1,
            (ey + 1) * wi + ex,
            (ey + 1) * wi + ex + 1,
        ];
        proof {
            assert(zone9.finite());
            assert(zone9.len() <= 9);
        }
        proof {
            lemma_count_cells_all_false(fields@, |ff: Field| ff.tile is Mine);
        }
        let mut candidates: Vec<Position> = Vec::new();
        let ghost missed: Set<int> = Set::empty();
        let mut missed_tracker: Ghost<Set<int>> = Ghost(missed);
        for idx in 0..total
            invariant
                w == width,
                h == height,
                wi == width as int,
                total == width * height,
                width > 0,
                height > 0,
                width * height <= max_cells(),
                ex == dont_surround.x as int,
                ey == dont_surround.y as int,
                zone9.finite(),
                zone9.len() <= 9,
                zone9 == (set![
                    (ey - 1) * wi + ex - 1,
                    (ey - 1) * wi + ex,
                    (ey - 1) * wi + ex + 1,
                    ey * wi + ex - 1,
                    ey * wi + ex,
                    ey * wi + ex + 1,
                    (ey + 1) * wi + ex - 1,
                    (ey + 1) * wi + ex,
                    (ey + 1) * wi + ex + 1,
                ]),
                missed_tracker@.finite(),
                missed_tracker@.subset_of(zone9),
                forall|e: int| missed_tracker@.contains(e) ==> e < idx,
                candidates@.len() + missed_tracker@.len() == idx,
                forall|k: int|
                    0 <= k < candidates@.len() ==> (#[trigger] candidates@[k]).valid(w, h),
                forall|k: int|
                    0 <= k < candidates@.len() ==> !dont_surround.spec_is_near(
                        #[trigger] candidates@[k],
                    ),
                forall|k: int|
                    0 <= k < candidates@.len() ==> (#[trigger] candidates@[k]).spec_index(w)
                        < idx,
                forall|k1: int, k2: int|
                    0 <= k1 < k2 < candidates@.len() ==> (#[trigger] candidates@[k1]).spec_index(
                        w,
                    ) != (#[trigger] candidates@[k2]).spec_index(w),
        {
            let pos = Position::from_index(idx, width);
            proof {
                lemma_index_to_xy(w, h, idx as int);
            }
            if !dont_surround.is_near(&pos) {
                candidates.push(pos);
            } else {
                proof {
                    assert(pos.x as int == ex - 1 || pos.x as int == ex || pos.x as int == ex
                        + 1);
                    assert(pos.y as int == ey - 1 || pos.y as int == ey || pos.y as int == ey
                        + 1);
                    assert(zone9.contains(idx as int));
                    assert(!missed_tracker@.contains(idx as int));
                    missed_tracker@ = missed_tracker@.insert(idx as int);
                }
            }
        }
        proof {
            lemma_len_subset(missed_tracker@, zone9);
            assert(candidates@.len() >= total - 9);
        }
        let mut placed: usize = 0;
        while placed < mine_count
            invariant
                w == width,
                h == height,
                total == width * height,
                width > 0,
                height > 0,
                width * height <= max_cells(),
                mine_count + 9 <= total,
                placed <= mine_count,
                fields@.len() == total,
                all_closed(fields@),
                count_mines(fields@) == placed,
                mine_count - placed <= candidates@.len(),
                forall|q: Position| q.valid(w, h) ==> 0 <= #[trigger] q.spec_index(w) < total,
                forall|k: int|
                    0 <= k < candidates@.len() ==> (#[trigger] candidates@[k]).valid(w, h),
                forall|k: int|
                    0 <= k < candidates@.len() ==> !dont_surround.spec_is_near(
                        #[trigger] candidates@[k],
                    ),
                forall|k: int|
                    0 <= k < candidates@.len() ==> !(fields@[(#[trigger] candidates@[
                    k]).spec_index(w)].tile is Mine),
                forall|k1: int, k2: int|
                    0 <= k1 < k2 < candidates@.len() ==> (#[trigger] candidates@[k1]).spec_index(
                        w,
                    ) != (#[trigger] candidates@[k2]).spec_index(w),
                forall|q: Position|
                    q.valid(w, h) && (#[trigger] fields@[q.spec_index(w)]).tile is Mine
                        ==> !dont_surround.spec_is_near(q),
            decreases mine_count - placed,
        {
            let r = random_index(candidates.len());
            let cpos = candidates[r];
            let cidx = cpos.index(width, height);
            let cf = fields[cidx];
            let mut nf = cf;
            nf.set_mine();
            let ghost gpre = fields@;
            fields.set(cidx, nf);
            proof {
                lemma_count_cells_update(gpre, |ff: Field| ff.tile is Mine, cidx as int, nf);
                lemma_count_cells_update(
                    gpre,
                    |ff: Field| ff.visibility is Closed,
                    cidx as int,
                    nf,
                );
                assert forall|q: Position|
                    q.valid(w, h) && (#[trigger] fields@[q.spec_index(w)]).tile is Mine
                        implies !dont_surround.spec_is_near(q) by {
                    if q.spec_index(w) == cidx as int {
                        lemma_index_injective(w, h, q, cpos);
                    }
                }
                assert forall|i: int| 0 <= i < fields@.len() implies (#[trigger] fields@[
                i]).visibility is Closed by {
                    assert(gpre[i].visibility is Closed);
                }
            }
            placed = placed + 1;
            let ghost cpre = candidates@;
            candidates.swap_remove(r);
            proof {
                assert(candidates@ == cpre.update(r as int, cpre.last()).drop_last());
                assert forall|k: int|
                    0 <= k < candidates@.len() implies !(fields@[(#[trigger] candidates@[
                k]).spec_index(w)].tile is Mine) by {
                    if k == r as int {
                        assert(candidates@[k] == cpre[cpre.len() - 1]);
                    } else {
                        assert(candidates@[k] == cpre[k]);
                    }
                }
                assert forall|k1: int, k2: int|
                    0 <= k1 < k2 < candidates@.len() implies (#[trigger] candidates@[
                k1]).spec_index(w) != (#[trigger] candidates@[k2]).spec_index(w) by {
                    if k1 == r as int {
                        assert(candidates@[k1] == cpre[cpre.len() - 1]);
                        assert(candidates@[k2] == cpre[k2]);
                    } else if k2 == r as int {
                        assert(candidates@[k2] == cpre[cpre.len() - 1]);
                        assert(candidates@[k1] == cpre[k1]);
                    } else {
                        assert(candidates@[k1] == cpre[k1]);
                        assert(candidates@[k2] == cpre[k2]);
                    }
                }
            }
        }
        derive_numbers(&mut fields, width, height);
        fields
    }
}

/// The replay generator: places mines at exactly the positions a replay
/// file lists (the exclusion position plays no role), then derives the
/// number tiles the same way as live play.
pub struct ReplayFieldGenerator {
    pub width: usize,
    pub height: usize,
    pub mines: Vec<Position>,
}

impl FieldGenerator for ReplayFieldGenerator {
    open spec fn spec_width(&self) -> usize {
        self.width
    }

    open spec fn spec_height(&self) -> usize {
        self.height
    }

    open spec fn spec_mine_amount(&self) -> usize {
        self.mines@.len() as usize
    }

    open spec fn wf(&self) -> bool {
        &&& self.width > 0
        &&& self.height > 0
        &&& self.width * self.height <= max_cells()
        &&& self.mines@.len() <= self.width * self.height
        &&& (forall|k: int|
            0 <= k < self.mines@.len() ==> (#[trigger] self.mines@[k]).valid(
                self.width,
                self.height,
            ))
        &&& (forall|k1: int, k2: int|
            0 <= k1 < k2 < self.mines@.len() ==> #[trigger] self.mines@[k1] != #[trigger] self.mines@[k2])
    }

    /// Mines lie at exactly the listed positions.
    open spec fn grid_ok(&self, g: Seq<Field>, exclude: Position) -> bool {
        forall|q: Position|
            q.valid(self.width, self.height) ==> ((#[trigger] g[q.spec_index(
                self.width,
            )]).tile is Mine <==> self.mines@.contains(q))
    }

    proof fn wf_bounds(&self) {
    }

    fn width(&self) -> (r: usize) {
        self.width
    }

    fn height(&self) -> (r: usize) {
        self.height
    }

    fn mine_amount(&self) -> (r: usize) {
        self.mines.len()
    }

    fn generate(&self, dont_surround: &Position) -> (r: Vec<Field>) {
        let width = self.width;
        let height = self.height;
        let ghost w = width;
        let ghost h = height;
        let total = width * height;
        let mut fields = empty_grid(width, height);
        proof {
            assert forall|q: Position| q.valid(w, h) implies 0 <= #[trigger] q.spec_index(w)
                < total by {
                lemma_index_bounds(w, h, q.x as int, q.y as int);
            }
        }
        proof {
            lemma_count_cells_all_false(fields@, |ff: Field| ff.tile is Mine);
        }
        let n = self.mines.len();
        for j in 0..n
            invariant
                w == width,
                h == height,
                total == width * height,
                width > 0,
                height > 0,
                width * height <= max_cells(),
                n == self.mines@.len(),
                width == self.width,
                height == self.height,
                self.wf(),
                fields@.len() == total,
                all_closed(fields@),
                count_mines(fields@) == j,
                forall|q: Position| q.valid(w, h) ==> 0 <= #[trigger] q.spec_index(w) < total,
                forall|q: Position|
                    q.valid(w, h) ==> ((#[trigger] fields@[q.spec_index(w)]).tile is Mine
                        <==> self.mines@.take(j as int).contains(q)),
        {
            let mpos = self.mines[j];
            proof {
                assert(mpos == self.mines@[j as int]);
                assert(mpos.valid(w, h));
            }
            let midx = mpos.index(width, height);
            let mf = fields[midx];
            let mut nf = mf;
            nf.set_mine();
            let ghost gpre = fields@;
            proof {
                if self.mines@.take(j as int).contains(mpos) {
                    let kk = choose|kk: int|
                        0 <= kk < j && self.mines@.take(j as int)[kk] == mpos;
                    assert(self.mines@[kk] == mpos);
                    assert(false);
                }
                assert((fields@[mpos.spec_index(w)].tile is Mine) <==> self.mines@.take(
                    j as int,
                ).contains(mpos));
                assert(!(gpre[midx as int].tile is Mine));
            }
            fields.set(midx, nf);
            proof {
                lemma_count_cells_update(gpre, |ff: Field| ff.tile is Mine, midx as int, nf);
                lemma_count_cells_update(
                    gpre,
                    |ff: Field| ff.visibility is Closed,
                    midx as int,
                    nf,
                );
                assert forall|i: int| 0 <= i < fields@.len() implies (#[trigger] fields@[
                i]).visibility is Closed by {
                    assert(gpre[i].visibility is Closed);
                }
                assert(self.mines@.take(j as int + 1) =~= self.mines@.take(j as int).push(
                    self.mines@[j as int],
                ));
                assert forall|q: Position|
                    q.valid(w, h) implies ((#[trigger] fields@[q.spec_index(w)]).tile is Mine
                        <==> self.mines@.take(j as int + 1).contains(q)) by {
                    if q.spec_index(w) == midx as int {
                        lemma_index_injective(w, h, q, mpos);
                        assert(self.mines@.take(j as int + 1)[j as int] == q);
                        assert(self.mines@.take(j as int + 1).contains(q));
                    } else {
                        assert(fields@[q.spec_index(w)] == gpre[q.spec_index(w)]);
                        if self.mines@.take(j as int + 1).contains(q) {
                            let kk = choose|kk: int|
                                0 <= kk <= j && #[trigger] self.mines@.take(j as int + 1)[kk]
                                    == q;
                            assert(self.mines@[kk] == q);
                            if kk == j {
                                assert(false);
                            } else {
                                assert(self.mines@.take(j as int)[kk] == q);
                                assert(self.mines@.take(j as int).contains(q));
                            }
                        }
                        if self.mines@.take(j as int).contains(q) {
                            let kk = choose|kk: int|
                                0 <= kk < j && self.mines@.take(j as int)[kk] == q;
                            assert(self.mines@.take(j as int + 1)[kk] == q);
                            assert(self.mines@.take(j as int + 1).contains(q));
                        }
                    }
                }
            }
        }
        proof {
            assert(self.mines@.take(n as int) =~= self.mines@);
        }
        derive_numbers(&mut fields, width, height);
        fields
    }
}

/// Applies the new-game settings rules: boards under 5x5 are refused, a
/// mine count beyond the board's capacity (its cells less the 9-cell safe
/// zone) is clamped down, never rejected.
pub fn new_game_settings(width: usize, height: usize, mines: usize) -> (r: Option<
    PlayFieldGenerator,
>)
    requires
        width * height <= max_cells(),
    ensures
        r is Some <==> (width >= 5 && height >= 5),
        r matches Some(g) ==> {
            &&& g.wf()
            &&& g.width == width
            &&& g.height == height
            &&& g.mine_count == (if mines + 9 <= width * height {
                mines as int
            } else {
                width * height - 9
            })
        },
{
    if width < 5 || height < 5 {
        return None;
    }
    proof {
        assert(width * height >= 25) by (nonlinear_arith)
            requires
                width >= 5,
                height >= 5,
        ;
        assert(width * height >= width) by (nonlinear_arith)
            requires
                width >= 5,
                height >= 5,
        ;
    }
    let capacity = width * height - 9;
    let mine_count = if mines <= capacity {
        mines
    } else {
        capacity
    };
    Some(PlayFieldGenerator { width, height, mine_count })
}

} // verus!
