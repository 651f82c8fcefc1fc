//! Laws that relate several operations, proved once over their contracts.

use vstd::prelude::*;

use crate::board::check_won_map;
use crate::field::Field;
use crate::fields::Fields;
use crate::fields::flag_post;
use crate::grid::lemma_index_bounds;
use crate::position::Position;
use crate::visibility::Visibility;

verus! {

/// Flagging — placing, removing or chord-placing flags — never triggers
/// nor blocks a win: the win check decides exactly the same outcome
/// before and after any flag call.
pub proof fn lemma_flag_never_decides(s0: Fields, s1: Fields, p: Position, r: Option<bool>)
    requires
        flag_post(s0, s1, p, r),
    ensures
        check_won_map(s1).won == check_won_map(s0).won,
        s1.won == s0.won,
{
}

/// Flagging a closed cell and flagging it again is the identity: the cell
/// is closed again and the mines counter, outcome and revealed count are
/// back to their old values.
pub proof fn lemma_flag_toggle_identity(
    s0: Fields,
    s1: Fields,
    s2: Fields,
    p: Position,
    r1: Option<bool>,
    r2: Option<bool>,
)
    requires
        s0.wf(),
        s0.won is Playing,
        p.valid(s0.width, s0.height),
        s0.fields@[p.spec_index(s0.width)].visibility is Closed,
        flag_post(s0, s1, p, r1),
        flag_post(s1, s2, p, r2),
    ensures
        s2.fields@ == s0.fields@,
        s2.mines.number == s0.mines.number,
        s2.won == s0.won,
        s2.revealed == s0.revealed,
        r1 == Some(true),
        r2 == Some(false),
{
    lemma_index_bounds(s0.width, s0.height, p.x as int, p.y as int);
    let i = p.spec_index(s0.width);
    assert(s1.fields@ == s0.fields@.update(
        i,
        Field { tile: s0.fields@[i].tile, visibility: Visibility::Flagged },
    ));
    assert(s1.fields@[i].visibility is Flagged);
    assert(s2.fields@ == s1.fields@.update(
        i,
        Field { tile: s1.fields@[i].tile, visibility: Visibility::Closed },
    ));
    assert(s2.fields@ =~= s0.fields@);
}

} // verus!
