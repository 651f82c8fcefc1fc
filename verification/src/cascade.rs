//! Reachability through the flood fill: which cells a reveal of an empty
//! cell cascades to, and the lemmas that tie the work-list algorithm to it.

use vstd::prelude::*;

use crate::field::Field;
use crate::grid::lemma_index_bounds;
use crate::position::Position;

verus! {

/// One step of the flood fill, on the grid `g` as it stood before the
/// reveal: from a closed empty cell `m` to any closed neighbor `q`. The
/// fill enters but does not cross number cells, and never enters flagged
/// or already-open ones.
pub open spec fn cascade_step(g: Seq<Field>, w: usize, h: usize, m: Position, q: Position) -> bool {
    &&& m.valid(w, h)
    &&& g[m.spec_index(w)].tile is Empty
    &&& g[m.spec_index(w)].visibility is Closed
    &&& m.spec_is_near(q)
    &&& q != m
    &&& q.valid(w, h)
    &&& g[q.spec_index(w)].visibility is Closed
}

/// A chain of cascade steps beginning at `start`.
pub open spec fn is_cascade_path(g: Seq<Field>, w: usize, h: usize, path: Seq<Position>, start: Position) -> bool {
    &&& path.len() >= 1
    &&& path[0] == start
    &&& forall|i: int|
        1 <= i < path.len() ==> cascade_step(g, w, h, path[i - 1], #[trigger] path[i])
}

/// The region a reveal of the closed empty cell `start` floods: the
/// connected zero-tile zone around `start` together with its numbered
/// border, as cut off by flags and already-open cells.
pub open spec fn cascade_reach(g: Seq<Field>, w: usize, h: usize, start: Position, q: Position) -> bool {
    exists|path: Seq<Position>|
        #[trigger] is_cascade_path(g, w, h, path, start) && path.last() == q
}

pub proof fn lemma_reach_start(g: Seq<Field>, w: usize, h: usize, start: Position)
    ensures
        cascade_reach(g, w, h, start, start),
{
    let path: Seq<Position> = seq![start];
    assert(is_cascade_path(g, w, h, path, start));
    assert(path.last() == start);
}

/// One more cascade step extends reachability.
pub proof fn lemma_reach_step(
    g: Seq<Field>,
    w: usize,
    h: usize,
    start: Position,
    m: Position,
    q: Position,
)
    requires
        cascade_reach(g, w, h, start, m),
        cascade_step(g, w, h, m, q),
    ensures
        cascade_reach(g, w, h, start, q),
{
    let path = choose|path: Seq<Position>|
        #[trigger] is_cascade_path(g, w, h, path, start) && path.last() == m;
    let path2 = path.push(q);
    assert forall|i: int|
        1 <= i < path2.len() implies cascade_step(g, w, h, path2[i - 1], #[trigger] path2[i]) by {
        if i < path.len() {
            assert(path2[i] == path[i]);
            assert(path2[i - 1] == path[i - 1]);
        } else {
            assert(path2[i] == q);
            assert(path2[i - 1] == path.last());
        }
    }
    assert(is_cascade_path(g, w, h, path2, start));
    assert(path2.last() == q);
}

/// A cell reachable on a partly opened grid was already reachable on the
/// grid before: opening cells only removes paths, never adds them.
pub proof fn lemma_reach_monotone(
    g1: Seq<Field>,
    g0: Seq<Field>,
    w: usize,
    h: usize,
    start: Position,
    q: Position,
)
    requires
        g0.len() == g1.len(),
        g0.len() == w * h,
        forall|i: int| 0 <= i < g0.len() ==> (#[trigger] g1[i]).tile == g0[i].tile,
        forall|i: int|
            0 <= i < g0.len() ==> ((#[trigger] g1[i]).visibility is Closed
                ==> g0[i].visibility is Closed),
        cascade_reach(g1, w, h, start, q),
    ensures
        cascade_reach(g0, w, h, start, q),
{
    let path = choose|path: Seq<Position>|
        #[trigger] is_cascade_path(g1, w, h, path, start) && path.last() == q;
    assert forall|i: int|
        1 <= i < path.len() implies cascade_step(g0, w, h, path[i - 1], #[trigger] path[i]) by {
        assert(cascade_step(g1, w, h, path[i - 1], path[i]));
        lemma_index_bounds(w, h, path[i - 1].x as int, path[i - 1].y as int);
        lemma_index_bounds(w, h, path[i].x as int, path[i].y as int);
    }
    assert(is_cascade_path(g0, w, h, path, start));
    assert(path.last() == q);
}

/// Once the work list has drained, every reachable cell that started
/// closed has been opened: the saturation property of the final grid
/// (every newly opened empty cell has no closed neighbor left) propagates
/// along any cascade path.
proof fn lemma_cascade_path_opens(
    g0: Seq<Field>,
    g1: Seq<Field>,
    w: usize,
    h: usize,
    start: Position,
    path: Seq<Position>,
)
    requires
        g0.len() == w * h,
        g1.len() == g0.len(),
        start.valid(w, h),
        g0[start.spec_index(w)].visibility is Closed,
        g0[start.spec_index(w)].tile is Empty,
        g1[start.spec_index(w)].visibility is Open,
        forall|i: int| 0 <= i < g0.len() ==> (#[trigger] g1[i]).tile == g0[i].tile,
        forall|i: int|
            0 <= i < g0.len() ==> (#[trigger] g1[i]).visibility == g0[i].visibility || (
            g0[i].visibility is Closed && g1[i].visibility is Open),
        forall|c: Position, q: Position|
            #![trigger g1[c.spec_index(w)], g1[q.spec_index(w)]]
            c.valid(w, h) && g1[c.spec_index(w)].visibility is Open && g1[c.spec_index(
                w,
            )].tile is Empty && g0[c.spec_index(w)].visibility is Closed && q.valid(w, h)
                && c.spec_is_near(q) && q != c ==> !(g1[q.spec_index(w)].visibility is Closed),
        is_cascade_path(g0, w, h, path, start),
    ensures
        g1[path.last().spec_index(w)].visibility is Open,
    decreases path.len(),
{
    if path.len() == 1 {
        assert(path.last() == start);
    } else {
        let q = path.last();
        let m = path[path.len() - 2];
        assert(cascade_step(g0, w, h, m, q));
        let prefix = path.drop_last();
        assert forall|i: int|
            1 <= i < prefix.len() implies cascade_step(g0, w, h, prefix[i - 1], #[trigger] prefix[
            i]) by {
            assert(prefix[i] == path[i]);
            assert(prefix[i - 1] == path[i - 1]);
        }
        assert(is_cascade_path(g0, w, h, prefix, start));
        assert(prefix.last() == m);
        lemma_cascade_path_opens(g0, g1, w, h, start, prefix);
        lemma_index_bounds(w, h, m.x as int, m.y as int);
        lemma_index_bounds(w, h, q.x as int, q.y as int);
        assert(g1[m.spec_index(w)].visibility is Open);
        assert(!(g1[q.spec_index(w)].visibility is Closed));
    }
}

/// The consumer-facing form of the completeness argument: under the same
/// saturation conditions, every reachable cell is open in the final grid.
pub proof fn lemma_cascade_complete(
    g0: Seq<Field>,
    g1: Seq<Field>,
    w: usize,
    h: usize,
    start: Position,
    q: Position,
)
    requires
        g0.len() == w * h,
        g1.len() == g0.len(),
        start.valid(w, h),
        g0[start.spec_index(w)].visibility is Closed,
        g0[start.spec_index(w)].tile is Empty,
        g1[start.spec_index(w)].visibility is Open,
        forall|i: int| 0 <= i < g0.len() ==> (#[trigger] g1[i]).tile == g0[i].tile,
        forall|i: int|
            0 <= i < g0.len() ==> (#[trigger] g1[i]).visibility == g0[i].visibility || (
            g0[i].visibility is Closed && g1[i].visibility is Open),
        forall|c: Position, p: Position|
            #![trigger g1[c.spec_index(w)], g1[p.spec_index(w)]]
            c.valid(w, h) && g1[c.spec_index(w)].visibility is Open && g1[c.spec_index(
                w,
            )].tile is Empty && g0[c.spec_index(w)].visibility is Closed && p.valid(w, h)
                && c.spec_is_near(p) && p != c ==> !(g1[p.spec_index(w)].visibility is Closed),
        cascade_reach(g0, w, h, start, q),
    ensures
        g1[q.spec_index(w)].visibility is Open,
{
    let path = choose|path: Seq<Position>|
        #[trigger] is_cascade_path(g0, w, h, path, start) && path.last() == q;
    lemma_cascade_path_opens(g0, g1, w, h, start, path);
}

} // verus!
