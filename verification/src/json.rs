//! The persisted form of a replay: a JSON object with the mine list, the
//! board size, the click stream and the total duration, written in one
//! canonical byte form.
//!
//! The library commits to this one canonical byte form: `to_json` is
//! verified to produce exactly it, and `from_json` accepts exactly it —
//! it succeeds on the canonical encoding of every valid file and
//! reproduces that file, and it refuses anything else (re-ordered keys or
//! extra whitespace included), so a load can never disagree with a save.

use vstd::prelude::*;

use crate::click::Click;
use crate::position::Position;
use crate::replay_file::ReplayFile;

verus! {

pub open spec fn spec_lit_obj_x() -> Seq<u8> {
    seq![123u8, 34u8, 120u8, 34u8, 58u8]
}

fn lit_obj_x() -> (r: Vec<u8>)
    ensures
        r@ == spec_lit_obj_x(),
{
    let v = vec![123u8, 34u8, 120u8, 34u8, 58u8];
    proof {
        assert(v@ =~= spec_lit_obj_x());
    }
    v
}

pub open spec fn spec_lit_comma_y() -> Seq<u8> {
    seq![44u8, 34u8, 121u8, 34u8, 58u8]
}

fn lit_comma_y() -> (r: Vec<u8>)
    ensures
        r@ == spec_lit_comma_y(),
{
    let v = vec![44u8, 34u8, 121u8, 34u8, 58u8];
    proof {
        assert(v@ =~= spec_lit_comma_y());
    }
    v
}

pub open spec fn spec_lit_comma_duration() -> Seq<u8> {
    seq![44u8, 34u8, 100u8, 117u8, 114u8, 97u8, 116u8, 105u8, 111u8, 110u8, 34u8, 58u8]
}

fn lit_comma_duration() -> (r: Vec<u8>)
    ensures
        r@ == spec_lit_comma_duration(),
{
    let v = vec![44u8, 34u8, 100u8, 117u8, 114u8, 97u8, 116u8, 105u8, 111u8, 110u8, 34u8, 58u8];
    proof {
        assert(v@ =~= spec_lit_comma_duration());
    }
    v
}

pub open spec fn spec_lit_reveal_tag() -> Seq<u8> {
    seq![123u8, 34u8, 82u8, 101u8, 118u8, 101u8, 97u8, 108u8, 34u8, 58u8]
}

fn lit_reveal_tag() -> (r: Vec<u8>)
    ensures
        r@ == spec_lit_reveal_tag(),
{
    let v = vec![123u8, 34u8, 82u8, 101u8, 118u8, 101u8, 97u8, 108u8, 34u8, 58u8];
    proof {
        assert(v@ =~= spec_lit_reveal_tag());
    }
    v
}

pub open spec fn spec_lit_flag_tag() -> Seq<u8> {
    seq![123u8, 34u8, 70u8, 108u8, 97u8, 103u8, 34u8, 58u8]
}

fn lit_flag_tag() -> (r: Vec<u8>)
    ensures
        r@ == spec_lit_flag_tag(),
{
    let v = vec![123u8, 34u8, 70u8, 108u8, 97u8, 103u8, 34u8, 58u8];
    proof {
        assert(v@ =~= spec_lit_flag_tag());
    }
    v
}

pub open spec fn spec_lit_mines_head() -> Seq<u8> {
    seq![123u8, 34u8, 109u8, 105u8, 110u8, 101u8, 115u8, 34u8, 58u8, 91u8]
}

fn lit_mines_head() -> (r: Vec<u8>)
    ensures
        r@ == spec_lit_mines_head(),
{
    let v = vec![123u8, 34u8, 109u8, 105u8, 110u8, 101u8, 115u8, 34u8, 58u8, 91u8];
    proof {
        assert(v@ =~= spec_lit_mines_head());
    }
    v
}

pub open spec fn spec_lit_size_head() -> Seq<u8> {
    seq![93u8, 44u8, 34u8, 115u8, 105u8, 122u8, 101u8, 34u8, 58u8, 91u8]
}

fn lit_size_head() -> (r: Vec<u8>)
    ensures
        r@ == spec_lit_size_head(),
{
    let v = vec![93u8, 44u8, 34u8, 115u8, 105u8, 122u8, 101u8, 34u8, 58u8, 91u8];
    proof {
        assert(v@ =~= spec_lit_size_head());
    }
    v
}

pub open spec fn spec_lit_clicks_head() -> Seq<u8> {
    seq![93u8, 44u8, 34u8, 99u8, 108u8, 105u8, 99u8, 107u8, 115u8, 34u8, 58u8, 91u8]
}

fn lit_clicks_head() -> (r: Vec<u8>)
    ensures
        r@ == spec_lit_clicks_head(),
{
    let v = vec![93u8, 44u8, 34u8, 99u8, 108u8, 105u8, 99u8, 107u8, 115u8, 34u8, 58u8, 91u8];
    proof {
        assert(v@ =~= spec_lit_clicks_head());
    }
    v
}

pub open spec fn spec_lit_duration_head() -> Seq<u8> {
    seq![93u8, 44u8, 34u8, 100u8, 117u8, 114u8, 97u8, 116u8, 105u8, 111u8, 110u8, 34u8, 58u8]
}

fn lit_duration_head() -> (r: Vec<u8>)
    ensures
        r@ == spec_lit_duration_head(),
{
    let v = vec![93u8, 44u8, 34u8, 100u8, 117u8, 114u8, 97u8, 116u8, 105u8, 111u8, 110u8, 34u8, 58u8];
    proof {
        assert(v@ =~= spec_lit_duration_head());
    }
    v
}

/// The decimal digits of `v`, most significant first.
pub open spec fn spec_ser_u64(v: u64) -> Seq<u8>
    decreases v,
{
    if v < 10 {
        seq![(0x30 + v) as u8]
    } else {
        spec_ser_u64((v / 10) as u64).push((0x30 + v % 10) as u8)
    }
}

/// `{"x":X,"y":Y` — the shared head of positions and click bodies.
pub open spec fn spec_ser_xy(x: u64, y: u64) -> Seq<u8> {
    spec_lit_obj_x() + spec_ser_u64(x) + spec_lit_comma_y() + spec_ser_u64(y)
}

/// `{"x":X,"y":Y}` for a position.
pub open spec fn spec_ser_pos(p: Position) -> Seq<u8> {
    spec_ser_xy(p.x as u64, p.y as u64) + seq![125u8]
}

/// The common body of a click: `{"x":X,"y":Y,"duration":D}`.
pub open spec fn spec_ser_click_body(p: Position, d: u64) -> Seq<u8> {
    spec_ser_xy(p.x as u64, p.y as u64) + spec_lit_comma_duration() + spec_ser_u64(d)
        + seq![125u8]
}

/// A click, externally tagged by its kind.
pub open spec fn spec_ser_click(c: Click) -> Seq<u8> {
    match c {
        Click::Reveal(p, d) => spec_lit_reveal_tag() + spec_ser_click_body(p, d) + seq![125u8],
        Click::Flag(p, d) => spec_lit_flag_tag() + spec_ser_click_body(p, d) + seq![125u8],
    }
}

/// A comma-separated list of positions.
pub open spec fn spec_ser_pos_list(s: Seq<Position>) -> Seq<u8>
    decreases s.len(),
{
    if s.len() == 0 {
        Seq::empty()
    } else if s.len() == 1 {
        spec_ser_pos(s[0])
    } else {
        spec_ser_pos_list(s.drop_last()) + seq![44u8] + spec_ser_pos(s.last())
    }
}

/// A comma-separated list of clicks.
pub open spec fn spec_ser_click_list(s: Seq<Click>) -> Seq<u8>
    decreases s.len(),
{
    if s.len() == 0 {
        Seq::empty()
    } else if s.len() == 1 {
        spec_ser_click(s[0])
    } else {
        spec_ser_click_list(s.drop_last()) + seq![44u8] + spec_ser_click(s.last())
    }
}

/// The whole file object.
pub open spec fn spec_ser_file(f: ReplayFile) -> Seq<u8> {
    spec_lit_mines_head() + spec_ser_pos_list(f.mines@) + spec_lit_size_head() + spec_ser_u64(
        f.size.0 as u64,
    ) + seq![44u8] + spec_ser_u64(f.size.1 as u64) + spec_lit_clicks_head() + spec_ser_click_list(
        f.clicks@,
    ) + spec_lit_duration_head() + spec_ser_u64(f.duration) + seq![125u8]
}

/// Appends every byte of `lit` to `out`.
fn push_all(out: &mut Vec<u8>, lit: &Vec<u8>)
    ensures
        final (out)@ == old(out)@ + lit@,
{
    let n = lit.len();
    for i in 0..n
        invariant
            n == lit@.len(),
            out@ == old(out)@ + lit@.take(i as int),
    {
        out.push(lit[i]);
        proof {
            assert(lit@.take(i as int + 1) =~= lit@.take(i as int).push(lit@[i as int]));
            assert(out@ =~= old(out)@ + lit@.take(i as int + 1));
        }
    }
    proof {
        assert(lit@.take(n as int) =~= lit@);
    }
}

/// Appends the decimal digits of `v` to `out`.
fn push_u64(out: &mut Vec<u8>, v: u64)
    ensures
        final (out)@ == old(out)@ + spec_ser_u64(v),
    decreases v,
{
    if v < 10 {
        out.push(0x30 + v as u8);
        proof {
            assert(out@ =~= old(out)@ + spec_ser_u64(v));
        }
    } else {
        proof {
            assert(v / 10 < v) by (nonlinear_arith)
                requires
                    v >= 10,
            ;
        }
        push_u64(out, v / 10);
        out.push(0x30 + (v % 10) as u8);
        proof {
            assert(out@ =~= old(out)@ + spec_ser_u64(v));
        }
    }
}

/// Appends the canonical encoding of a position.
fn push_pos(out: &mut Vec<u8>, p: &Position)
    ensures
        final (out)@ == old(out)@ + spec_ser_pos(*p),
{
    push_all(out, &lit_obj_x());
    push_u64(out, p.x as u64);
    push_all(out, &lit_comma_y());
    push_u64(out, p.y as u64);
    out.push(125u8);
    proof {
        assert(out@ =~= old(out)@ + spec_ser_pos(*p));
    }
}

/// Appends the canonical encoding of a click.
fn push_click(out: &mut Vec<u8>, c: &Click)
    ensures
        final (out)@ == old(out)@ + spec_ser_click(*c),
{
    match c {
        Click::Reveal(p, d) => {
            push_all(out, &lit_reveal_tag());
            push_all(out, &lit_obj_x());
            push_u64(out, p.x as u64);
            push_all(out, &lit_comma_y());
            push_u64(out, p.y as u64);
            push_all(out, &lit_comma_duration());
            push_u64(out, *d);
            let two = vec![125u8, 125u8];
            proof {
                assert(two@ =~= seq![125u8, 125u8]);
            }
            push_all(out, &two);
            proof {
                assert(out@ =~= old(out)@ + spec_ser_click(*c));
            }
        },
        Click::Flag(p, d) => {
            push_all(out, &lit_flag_tag());
            push_all(out, &lit_obj_x());
            push_u64(out, p.x as u64);
            push_all(out, &lit_comma_y());
            push_u64(out, p.y as u64);
            push_all(out, &lit_comma_duration());
            push_u64(out, *d);
            let two = vec![125u8, 125u8];
            proof {
                assert(two@ =~= seq![125u8, 125u8]);
            }
            push_all(out, &two);
            proof {
                assert(out@ =~= old(out)@ + spec_ser_click(*c));
            }
        },
    }
}

impl ReplayFile {
    /// The canonical JSON encoding of the file.
    pub fn to_json(&self) -> (r: Vec<u8>)
        ensures
            r@ == spec_ser_file(*self),
    {
        let mut out: Vec<u8> = Vec::new();
        push_all(&mut out, &lit_mines_head());
        let ghost base = out@;
        let nm = self.mines.len();
        for k in 0..nm
            invariant
                nm == self.mines@.len(),
                out@ == base + spec_ser_pos_list(self.mines@.take(k as int)),
        {
            if k > 0 {
                out.push(44u8);
            }
            push_pos(&mut out, &self.mines[k]);
            proof {
                let taken = self.mines@.take(k as int + 1);
                assert(taken.drop_last() =~= self.mines@.take(k as int));
                assert(taken.last() == self.mines@[k as int]);
                if k == 0 {
                    assert(spec_ser_pos_list(taken) == spec_ser_pos(self.mines@[0]));
                    assert(out@ =~= base + spec_ser_pos_list(taken));
                } else {
                    assert(out@ =~= base + spec_ser_pos_list(taken));
                }
            }
        }
        proof {
            assert(self.mines@.take(nm as int) =~= self.mines@);
        }
        push_all(&mut out, &lit_size_head());
        push_u64(&mut out, self.size.0 as u64);
        out.push(44u8);
        push_u64(&mut out, self.size.1 as u64);
        push_all(&mut out, &lit_clicks_head());
        let ghost base2 = out@;
        let ncl = self.clicks.len();
        for k in 0..ncl
            invariant
                ncl == self.clicks@.len(),
                out@ == base2 + spec_ser_click_list(self.clicks@.take(k as int)),
        {
            if k > 0 {
                out.push(44u8);
            }
            push_click(&mut out, &self.clicks[k]);
            proof {
                let taken = self.clicks@.take(k as int + 1);
                assert(taken.drop_last() =~= self.clicks@.take(k as int));
                assert(taken.last() == self.clicks@[k as int]);
                assert(out@ =~= base2 + spec_ser_click_list(taken));
            }
        }
        proof {
            assert(self.clicks@.take(ncl as int) =~= self.clicks@);
        }
        push_all(&mut out, &lit_duration_head());
        push_u64(&mut out, self.duration);
        out.push(125u8);
        proof {
            assert(out@ =~= spec_ser_file(*self));
        }
        out
    }
}

pub open spec fn spec_digit(b: u8) -> bool {
    0x30 <= b <= 0x39
}

/// Every byte of a serialized number is a decimal digit.
proof fn lemma_ser_u64_digits(v: u64)
    ensures
        spec_ser_u64(v).len() >= 1,
        forall|i: int| 0 <= i < spec_ser_u64(v).len() ==> spec_digit(#[trigger] spec_ser_u64(v)[i]),
    decreases v,
{
    if v >= 10 {
        lemma_ser_u64_digits(v / 10);
    }
}

/// The number a digit string denotes, most significant digit first.
pub open spec fn spec_digits_val(s: Seq<u8>) -> int
    decreases s.len(),
{
    if s.len() == 0 {
        0
    } else {
        spec_digits_val(s.drop_last()) * 10 + (s.last() - 0x30)
    }
}

/// Reading back the digits of `v` gives `v`.
proof fn lemma_digits_val_ser(v: u64)
    ensures
        spec_digits_val(spec_ser_u64(v)) == v,
    decreases v,
{
    if v < 10 {
        assert(spec_ser_u64(v) == seq![(0x30 + v) as u8]);
        assert(spec_ser_u64(v).drop_last() =~= Seq::<u8>::empty());
        assert(((0x30 + v) as u8) as int == 0x30 + v);
        assert(spec_ser_u64(v).last() == (0x30 + v) as u8);
        assert(spec_digits_val(Seq::<u8>::empty()) == 0);
        assert(spec_digits_val(spec_ser_u64(v)) == spec_digits_val(spec_ser_u64(v).drop_last())
            * 10 + (spec_ser_u64(v).last() - 0x30));
    } else {
        lemma_digits_val_ser(v / 10);
        assert(spec_ser_u64(v) == spec_ser_u64(v / 10).push((0x30 + v % 10) as u8));
        assert(spec_ser_u64(v).drop_last() =~= spec_ser_u64(v / 10));
        assert(spec_ser_u64(v).last() == (0x30 + v % 10) as u8);
        assert(spec_digits_val(spec_ser_u64(v)) == spec_digits_val(spec_ser_u64(v).drop_last())
            * 10 + (spec_ser_u64(v).last() - 0x30));
        assert(spec_digits_val(spec_ser_u64(v).drop_last()) == v / 10);
        assert(0 <= v as int % 10 < 10);
        assert(((0x30 + v % 10) as u8) as int == 0x30 + v as int % 10);
        vstd::arithmetic::div_mod::lemma_fundamental_div_mod(v as int, 10);
        assert(10 * (v as int / 10) == (v as int / 10) * 10);
    }
}

/// A digit string denotes a nonnegative number.
proof fn lemma_digits_val_nonneg(s: Seq<u8>)
    requires
        forall|i: int| 0 <= i < s.len() ==> spec_digit(#[trigger] s[i]),
    ensures
        spec_digits_val(s) >= 0,
    decreases s.len(),
{
    if s.len() > 0 {
        lemma_digits_val_nonneg(s.drop_last());
    }
}

/// Extending a digit string never shrinks the number it denotes.
proof fn lemma_digits_val_prefix_le(s: Seq<u8>, t: Seq<u8>)
    requires
        forall|i: int| 0 <= i < s.len() ==> spec_digit(#[trigger] s[i]),
        forall|i: int| 0 <= i < t.len() ==> spec_digit(#[trigger] t[i]),
    ensures
        spec_digits_val(s) <= spec_digits_val(s + t),
    decreases t.len(),
{
    if t.len() == 0 {
        assert(s + t =~= s);
    } else {
        lemma_digits_val_prefix_le(s, t.drop_last());
        assert((s + t).drop_last() =~= s + t.drop_last());
        assert forall|i: int| 0 <= i < (s + t.drop_last()).len() implies spec_digit(
            #[trigger] (s + t.drop_last())[i],
        ) by {}
        lemma_digits_val_nonneg(s + t.drop_last());
    }
}

/// Splits a known range of `b` that equals `x + y` into its two halves.
proof fn lemma_split(b: Seq<u8>, pos: int, x: Seq<u8>, y: Seq<u8>)
    requires
        0 <= pos,
        pos + x.len() + y.len() <= b.len(),
        b.subrange(pos, pos + x.len() + y.len()) == x + y,
    ensures
        b.subrange(pos, pos + x.len()) == x,
        b.subrange(pos + x.len(), pos + x.len() + y.len()) == y,
{
    assert forall|i: int|
        0 <= i < x.len() implies b.subrange(pos, pos + x.len())[i] == x[i] by {
        assert(b.subrange(pos, pos + x.len() + y.len())[i] == (x + y)[i]);
    }
    assert(b.subrange(pos, pos + x.len()) =~= x);
    assert forall|i: int|
        0 <= i < y.len() implies b.subrange(pos + x.len(), pos + x.len() + y.len())[i] == y[
        i] by {
        assert(b.subrange(pos, pos + x.len() + y.len())[x.len() + i] == (x + y)[x.len() + i]);
        assert((x + y)[x.len() + i] == y[i]);
        assert(b.subrange(pos, pos + x.len() + y.len())[x.len() + i] == b[pos + x.len() + i]);
        assert(b.subrange(pos + x.len(), pos + x.len() + y.len())[i] == b[pos + x.len() + i]);
    }
    assert(b.subrange(pos + x.len(), pos + x.len() + y.len()) =~= y);
}

/// True iff the two byte strings are equal.
fn bytes_eq(a: &Vec<u8>, b: &Vec<u8>) -> (r: bool)
    ensures
        r <==> a@ == b@,
{
    if a.len() != b.len() {
        proof {
            assert(a@.len() != b@.len());
        }
        return false;
    }
    let n = a.len();
    for i in 0..n
        invariant
            n == a@.len(),
            n == b@.len(),
            forall|k: int| 0 <= k < i ==> a@[k] == b@[k],
    {
        if a[i] != b[i] {
            return false;
        }
    }
    proof {
        assert(a@ =~= b@);
    }
    true
}

/// Reads `lit` at `pos`; gives the position after it. Succeeds exactly
/// when `lit` stands at `pos`.
fn parse_lit(bytes: &Vec<u8>, pos: usize, lit: &Vec<u8>) -> (r: Option<usize>)
    ensures
        r matches Some(end) ==> pos <= end <= bytes@.len(),
        r matches Some(end) ==> end == pos + lit@.len() && bytes@.subrange(
            pos as int,
            pos + lit@.len(),
        ) == lit@,
        (pos + lit@.len() <= bytes@.len() && bytes@.subrange(pos as int, pos + lit@.len())
            == lit@) ==> r == Some((pos + lit@.len()) as usize),
{
    let n = lit.len();
    if pos > bytes.len() || bytes.len() - pos < n {
        return None;
    }
    for i in 0..n
        invariant
            n == lit@.len(),
            pos + n <= bytes@.len(),
            bytes@.len() <= usize::MAX,
            forall|k: int| 0 <= k < i ==> bytes@[pos + k] == lit@[k],
    {
        let bi = pos + i;
        if bytes[bi] != lit[i] {
            proof {
                if bytes@.subrange(pos as int, pos + lit@.len()) == lit@ {
                    assert(bytes@.subrange(pos as int, pos + lit@.len())[i as int]
                        == lit@[i as int]);
                }
            }
            return None;
        }
    }
    proof {
        assert(bytes@.subrange(pos as int, pos + lit@.len()) =~= lit@);
    }
    Some(pos + n)
}

/// Reads a run of decimal digits at `pos` as a `u64`. On the digits of
/// `v`, followed by a non-digit or the end, it reads back exactly `v`.
fn parse_u64(bytes: &Vec<u8>, pos: usize) -> (r: Option<(u64, usize)>)
    ensures
        r matches Some(ve) ==> pos < ve.1 <= bytes@.len(),
        forall|v: u64|
            (pos + (#[trigger] spec_ser_u64(v)).len() <= bytes@.len() && bytes@.subrange(
                pos as int,
                pos + spec_ser_u64(v).len(),
            ) == spec_ser_u64(v) && (pos + spec_ser_u64(v).len() == bytes@.len() || !spec_digit(
                bytes@[pos + spec_ser_u64(v).len()],
            ))) ==> r == Some((v, (pos + spec_ser_u64(v).len()) as usize)),
{
    if pos > bytes.len() {
        return None;
    }
    let mut cur = pos;
    let mut value: u64 = 0;
    let mut any = false;
    while cur < bytes.len() && bytes[cur] >= 0x30 && bytes[cur] <= 0x39
        invariant
            pos <= cur <= bytes@.len(),
            bytes@.len() <= usize::MAX,
            any <==> cur > pos,
            forall|k: int| pos <= k < cur ==> spec_digit(bytes@[k]),
            value == spec_digits_val(bytes@.subrange(pos as int, cur as int)),
        decreases bytes@.len() - cur,
    {
        let d = (bytes[cur] - 0x30) as u64;
        proof {
            assert(bytes@.subrange(pos as int, cur as int + 1).drop_last() =~= bytes@.subrange(
                pos as int,
                cur as int,
            ));
        }
        if value > (u64::MAX - d) / 10 {
            proof {
                assert forall|v: u64|
                    !(pos + (#[trigger] spec_ser_u64(v)).len() <= bytes@.len()
                        && bytes@.subrange(pos as int, pos + spec_ser_u64(v).len())
                        == spec_ser_u64(v) && (pos + spec_ser_u64(v).len() == bytes@.len()
                        || !spec_digit(bytes@[pos + spec_ser_u64(v).len()]))) by {
                    let sv = spec_ser_u64(v);
                    if pos + sv.len() <= bytes@.len() && bytes@.subrange(
                        pos as int,
                        pos + sv.len(),
                    ) == sv && (pos + sv.len() == bytes@.len() || !spec_digit(
                        bytes@[pos + sv.len()],
                    )) {
                        lemma_ser_u64_digits(v);
                        lemma_digits_val_ser(v);
                        // the scan sits strictly inside the digits of v
                        assert(bytes@[cur as int] == bytes@[cur as int]);
                        assert((cur as int) < pos + sv.len());
                        let pre = bytes@.subrange(pos as int, cur as int);
                        let pre1 = bytes@.subrange(pos as int, cur as int + 1);
                        assert forall|j: int| pos <= j < pos + sv.len() implies spec_digit(
                            #[trigger] bytes@[j],
                        ) by {
                            assert(bytes@.subrange(pos as int, pos + sv.len())[j - pos] == sv[
                                j - pos]);
                        }
                        assert forall|k: int| 0 <= k < pre1.len() implies spec_digit(
                            #[trigger] pre1[k],
                        ) by {
                            assert(pre1[k] == bytes@[pos + k]);
                        }
                        let rest = bytes@.subrange(cur as int + 1, pos + sv.len());
                        assert forall|k: int| 0 <= k < rest.len() implies spec_digit(
                            #[trigger] rest[k],
                        ) by {
                            assert(rest[k] == bytes@[cur as int + 1 + k]);
                        }
                        assert(pre1 + rest =~= sv);
                        lemma_digits_val_prefix_le(pre1, rest);
                        assert(spec_digits_val(pre1) == value * 10 + d);
                        assert(spec_digits_val(pre1) <= spec_digits_val(sv));
                        assert(value * 10 + d <= v);
                        assert(value <= (u64::MAX - d) / 10);
                        assert(false);
                    }
                }
            }
            return None;
        }
        value = value * 10 + d;
        any = true;
        cur = cur + 1;
    }
    proof {
        assert forall|v: u64|
            (pos + (#[trigger] spec_ser_u64(v)).len() <= bytes@.len() && bytes@.subrange(
                pos as int,
                pos + spec_ser_u64(v).len(),
            ) == spec_ser_u64(v) && (pos + spec_ser_u64(v).len() == bytes@.len() || !spec_digit(
                bytes@[pos + spec_ser_u64(v).len()],
            ))) implies (any && value == v && cur == pos + spec_ser_u64(v).len()) by {
            let sv = spec_ser_u64(v);
            lemma_ser_u64_digits(v);
            lemma_digits_val_ser(v);
            assert forall|j: int| pos <= j < pos + sv.len() implies spec_digit(
                #[trigger] bytes@[j],
            ) by {
                assert(bytes@.subrange(pos as int, pos + sv.len())[j - pos] == sv[j - pos]);
            }
            // the scan cannot stop inside the digits, nor pass their end
            if (cur as int) < pos + sv.len() {
                assert(spec_digit(bytes@[cur as int]));
                assert(cur < bytes@.len());
                assert(false);
            }
            if (cur as int) > pos + sv.len() {
                assert(spec_digit(bytes@[pos + sv.len()]));
                assert(false);
            }
            assert((cur as int) == pos + sv.len());
            assert(bytes@.subrange(pos as int, cur as int) == sv);
            assert(value == spec_digits_val(sv));
        }
    }
    if any {
        Some((value, cur))
    } else {
        None
    }
}

/// `{"x":X,"y":Y` stands at `pos`, delimited on the right by a non-digit
/// or the end of the input.
pub open spec fn xy_at(b: Seq<u8>, pos: int, x: u64, y: u64) -> bool {
    &&& pos + spec_ser_xy(x, y).len() <= b.len()
    &&& b.subrange(pos, pos + spec_ser_xy(x, y).len()) == spec_ser_xy(x, y)
    &&& (pos + spec_ser_xy(x, y).len() == b.len() || !spec_digit(
        b[pos + spec_ser_xy(x, y).len()],
    ))
}

/// Breaks a range known to hold `{"x":X,"y":Y` into its four pieces.
proof fn lemma_xy_decompose(b: Seq<u8>, pos: int, x: u64, y: u64)
    requires
        0 <= pos,
        pos + spec_ser_xy(x, y).len() <= b.len(),
        b.subrange(pos, pos + spec_ser_xy(x, y).len()) == spec_ser_xy(x, y),
    ensures
        spec_ser_xy(x, y).len() == 10 + spec_ser_u64(x).len() + spec_ser_u64(y).len(),
        b.subrange(pos, pos + 5) == spec_lit_obj_x(),
        b.subrange(pos + 5, pos + 5 + spec_ser_u64(x).len()) == spec_ser_u64(x),
        !spec_digit(b[pos + 5 + spec_ser_u64(x).len()]),
        b.subrange(
            pos + 5 + spec_ser_u64(x).len(),
            pos + 10 + spec_ser_u64(x).len(),
        ) == spec_lit_comma_y(),
        b.subrange(
            pos + 10 + spec_ser_u64(x).len(),
            pos + 10 + spec_ser_u64(x).len() + spec_ser_u64(y).len(),
        ) == spec_ser_u64(y),
{
    let sx = spec_ser_u64(x);
    let sy = spec_ser_u64(y);
    let rest1 = sx + spec_lit_comma_y() + sy;
    assert(spec_ser_xy(x, y) =~= spec_lit_obj_x() + rest1);
    lemma_split(b, pos, spec_lit_obj_x(), rest1);
    let rest2 = spec_lit_comma_y() + sy;
    assert(rest1 =~= sx + rest2);
    lemma_split(b, pos + 5, sx, rest2);
    lemma_split(b, pos + 5 + sx.len(), spec_lit_comma_y(), sy);
    assert(b.subrange(
        pos + 5 + sx.len(),
        pos + 10 + sx.len(),
    )[0] == spec_lit_comma_y()[0]);
    assert(b[pos + 5 + sx.len()] == 44u8);
}

/// Reads `{"x":X,"y":Y` — the shared head of positions and click bodies.
/// On the head for `(x, y)`, followed by a non-digit or the end, it reads
/// back exactly those coordinates.
fn parse_xy(bytes: &Vec<u8>, pos: usize) -> (r: Option<(u64, u64, usize)>)
    ensures
        r matches Some(t) ==> pos <= t.2 <= bytes@.len(),
        forall|x: u64, y: u64|
            #[trigger] xy_at(bytes@, pos as int, x, y) ==> r == Some(
                (x, y, (pos + spec_ser_xy(x, y).len()) as usize),
            ),
{
    let blen = bytes.len();
    proof {
        assert(bytes@.len() == blen);
    }
    let p1 = match parse_lit(bytes, pos, &lit_obj_x()) {
        Some(p) => p,
        None => {
            proof {
                assert forall|x: u64, y: u64| !xy_at(bytes@, pos as int, x, y) by {
                    if xy_at(bytes@, pos as int, x, y) {
                        lemma_xy_decompose(bytes@, pos as int, x, y);
                    }
                }
            }
            return None;
        },
    };
    let (x, p2) = match parse_u64(bytes, p1) {
        Some(v) => v,
        None => {
            proof {
                assert forall|xv: u64, yv: u64| !xy_at(bytes@, pos as int, xv, yv) by {
                    if xy_at(bytes@, pos as int, xv, yv) {
                        lemma_xy_decompose(bytes@, pos as int, xv, yv);
                        assert(p1 == pos + 5);
                        assert(p1 + spec_ser_u64(xv).len() <= bytes@.len());
                        assert(bytes@.subrange(p1 as int, p1 + spec_ser_u64(xv).len())
                            == spec_ser_u64(xv));
                        assert(!spec_digit(bytes@[p1 + spec_ser_u64(xv).len()]));
                        assert(false);
                    }
                }
            }
            return None;
        },
    };
    let p3 = match parse_lit(bytes, p2, &lit_comma_y()) {
        Some(p) => p,
        None => {
            proof {
                assert forall|xv: u64, yv: u64| !xy_at(bytes@, pos as int, xv, yv) by {
                    if xy_at(bytes@, pos as int, xv, yv) {
                        lemma_xy_decompose(bytes@, pos as int, xv, yv);
                        assert(p1 == pos + 5);
                        assert(p1 + spec_ser_u64(xv).len() <= bytes@.len());
                        assert(bytes@.subrange(p1 as int, p1 + spec_ser_u64(xv).len())
                            == spec_ser_u64(xv));
                        assert(!spec_digit(bytes@[p1 + spec_ser_u64(xv).len()]));
                        assert(p2 == p1 + spec_ser_u64(xv).len());
                        assert(p2 + 5 <= bytes@.len());
                        assert(bytes@.subrange(p2 as int, p2 + 5) == spec_lit_comma_y());
                        assert(false);
                    }
                }
            }
            return None;
        },
    };
    let (y, p4) = match parse_u64(bytes, p3) {
        Some(v) => v,
        None => {
            proof {
                assert forall|xv: u64, yv: u64| !xy_at(bytes@, pos as int, xv, yv) by {
                    if xy_at(bytes@, pos as int, xv, yv) {
                        lemma_xy_decompose(bytes@, pos as int, xv, yv);
                        assert(p1 == pos + 5);
                        assert(p1 + spec_ser_u64(xv).len() <= bytes@.len());
                        assert(bytes@.subrange(p1 as int, p1 + spec_ser_u64(xv).len())
                            == spec_ser_u64(xv));
                        assert(!spec_digit(bytes@[p1 + spec_ser_u64(xv).len()]));
                        assert(p2 == p1 + spec_ser_u64(xv).len());
                        assert(p3 == p2 + 5);
                        assert(p3 + spec_ser_u64(yv).len() <= bytes@.len());
                        assert(bytes@.subrange(p3 as int, p3 + spec_ser_u64(yv).len())
                            == spec_ser_u64(yv));
                        assert(false);
                    }
                }
            }
            return None;
        },
    };
    proof {
        assert forall|xv: u64, yv: u64|
            xy_at(bytes@, pos as int, xv, yv) implies (x == xv && y == yv && p4 == pos
            + spec_ser_xy(xv, yv).len()) by {
            lemma_xy_decompose(bytes@, pos as int, xv, yv);
            assert(p1 == pos + 5);
            assert(p1 + spec_ser_u64(xv).len() <= bytes@.len());
            assert(bytes@.subrange(p1 as int, p1 + spec_ser_u64(xv).len()) == spec_ser_u64(xv));
            assert(!spec_digit(bytes@[p1 + spec_ser_u64(xv).len()]));
            assert(x == xv && p2 == p1 + spec_ser_u64(xv).len());
            assert(p3 == p2 + 5);
            assert(p3 + spec_ser_u64(yv).len() <= bytes@.len());
            assert(bytes@.subrange(p3 as int, p3 + spec_ser_u64(yv).len()) == spec_ser_u64(yv));
            assert(y == yv && p4 == p3 + spec_ser_u64(yv).len());
        }
    }
    Some((x, y, p4))
}

/// A position object stands at `pos`.
pub open spec fn pos_at(b: Seq<u8>, pos: int, p: Position) -> bool {
    &&& pos + spec_ser_pos(p).len() <= b.len()
    &&& b.subrange(pos, pos + spec_ser_pos(p).len()) == spec_ser_pos(p)
}

/// Breaks a range known to hold a position object into its head and its
/// closing brace.
proof fn lemma_pos_decompose(b: Seq<u8>, pos: int, p: Position)
    requires
        0 <= pos,
        pos_at(b, pos, p),
    ensures
        spec_ser_pos(p).len() == spec_ser_xy(p.x as u64, p.y as u64).len() + 1,
        xy_at(b, pos, p.x as u64, p.y as u64),
        b[pos + spec_ser_xy(p.x as u64, p.y as u64).len()] == 125u8,
{
    let head = spec_ser_xy(p.x as u64, p.y as u64);
    assert(spec_ser_pos(p) =~= head + seq![125u8]);
    lemma_split(b, pos, head, seq![125u8]);
    assert(b.subrange(pos + head.len(), pos + head.len() + 1)[0] == 125u8);
    assert(b[pos + head.len()] == 125u8);
    assert(!spec_digit(125u8));
}

/// Reads a position object: on the encoding of `p` it reads back `p`.
fn parse_pos(bytes: &Vec<u8>, pos: usize) -> (r: Option<(Position, usize)>)
    ensures
        r matches Some(t) ==> pos < t.1 <= bytes@.len(),
        forall|p: Position|
            #[trigger] pos_at(bytes@, pos as int, p) ==> r == Some(
                (p, (pos + spec_ser_pos(p).len()) as usize),
            ),
{
    let blen = bytes.len();
    proof {
        assert(bytes@.len() == blen);
    }
    let (x, y, p1) = match parse_xy(bytes, pos) {
        Some(t) => t,
        None => {
            proof {
                assert forall|p: Position| !pos_at(bytes@, pos as int, p) by {
                    if pos_at(bytes@, pos as int, p) {
                        lemma_pos_decompose(bytes@, pos as int, p);
                    }
                }
            }
            return None;
        },
    };
    if x > usize::MAX as u64 || y > usize::MAX as u64 {
        proof {
            assert forall|p: Position| !pos_at(bytes@, pos as int, p) by {
                if pos_at(bytes@, pos as int, p) {
                    lemma_pos_decompose(bytes@, pos as int, p);
                    assert(x == p.x as u64 && y == p.y as u64);
                    assert(false);
                }
            }
        }
        return None;
    }
    let close = vec![125u8];
    proof {
        assert(close@ =~= seq![125u8]);
    }
    let p2 = match parse_lit(bytes, p1, &close) {
        Some(p) => p,
        None => {
            proof {
                assert forall|p: Position| !pos_at(bytes@, pos as int, p) by {
                    if pos_at(bytes@, pos as int, p) {
                        lemma_pos_decompose(bytes@, pos as int, p);
                        let head = spec_ser_xy(p.x as u64, p.y as u64);
                        assert(p1 == pos + head.len());
                        assert(p1 + close@.len() <= bytes@.len());
                        assert(bytes@.subrange(p1 as int, p1 + close@.len()) =~= close@);
                        assert(false);
                    }
                }
            }
            return None;
        },
    };
    proof {
        assert forall|p: Position|
            pos_at(bytes@, pos as int, p) implies ((Position { x: x as usize, y: y as usize })
            == p && p2 == pos + spec_ser_pos(p).len()) by {
            lemma_pos_decompose(bytes@, pos as int, p);
            let head = spec_ser_xy(p.x as u64, p.y as u64);
            assert(x == p.x as u64 && y == p.y as u64);
            assert(p1 == pos + head.len());
            assert(p1 + close@.len() <= bytes@.len());
            assert(bytes@.subrange(p1 as int, p1 + close@.len()) =~= close@);
            assert(p2 == p1 + 1);
        }
    }
    Some((Position { x: x as usize, y: y as usize }, p2))
}

/// A non-empty position list splits into its first element and the rest.
proof fn lemma_pos_list_head(s: Seq<Position>)
    requires
        s.len() >= 1,
    ensures
        s.len() == 1 ==> spec_ser_pos_list(s) == spec_ser_pos(s[0]),
        s.len() >= 2 ==> spec_ser_pos_list(s) == spec_ser_pos(s[0]) + seq![44u8]
            + spec_ser_pos_list(s.subrange(1, s.len() as int)),
    decreases s.len(),
{
    if s.len() >= 2 {
        let tail = s.subrange(1, s.len() as int);
        lemma_pos_list_head(s.drop_last());
        if s.len() == 2 {
            assert(s.drop_last() =~= seq![s[0]]);
            assert(tail =~= seq![s[1]]);
            assert(spec_ser_pos_list(s) =~= spec_ser_pos(s[0]) + seq![44u8] + spec_ser_pos_list(
                tail,
            ));
        } else {
            assert(s.drop_last().subrange(1, s.drop_last().len() as int) =~= tail.drop_last());
            assert(tail.last() == s.last());
            assert(spec_ser_pos_list(tail) == spec_ser_pos_list(tail.drop_last()) + seq![44u8]
                + spec_ser_pos(tail.last()));
            assert(spec_ser_pos_list(s) =~= spec_ser_pos(s[0]) + seq![44u8] + spec_ser_pos_list(
                tail,
            ));
        }
    }
}

/// A non-empty click list splits into its first element and the rest.
proof fn lemma_click_list_head(s: Seq<Click>)
    requires
        s.len() >= 1,
    ensures
        s.len() == 1 ==> spec_ser_click_list(s) == spec_ser_click(s[0]),
        s.len() >= 2 ==> spec_ser_click_list(s) == spec_ser_click(s[0]) + seq![44u8]
            + spec_ser_click_list(s.subrange(1, s.len() as int)),
    decreases s.len(),
{
    if s.len() >= 2 {
        let tail = s.subrange(1, s.len() as int);
        lemma_click_list_head(s.drop_last());
        if s.len() == 2 {
            assert(s.drop_last() =~= seq![s[0]]);
            assert(tail =~= seq![s[1]]);
            assert(spec_ser_click_list(s) =~= spec_ser_click(s[0]) + seq![44u8]
                + spec_ser_click_list(tail));
        } else {
            assert(s.drop_last().subrange(1, s.drop_last().len() as int) =~= tail.drop_last());
            assert(tail.last() == s.last());
            assert(spec_ser_click_list(tail) == spec_ser_click_list(tail.drop_last())
                + seq![44u8] + spec_ser_click(tail.last()));
            assert(spec_ser_click_list(s) =~= spec_ser_click(s[0]) + seq![44u8]
                + spec_ser_click_list(tail));
        }
    }
}

/// A non-empty position list stands at `pos`, with no comma right after
/// it (so the parser knows where it ends).
pub open spec fn pos_list_at(b: Seq<u8>, pos: int, ms: Seq<Position>) -> bool {
    &&& ms.len() >= 1
    &&& pos + spec_ser_pos_list(ms).len() < b.len()
    &&& b.subrange(pos, pos + spec_ser_pos_list(ms).len()) == spec_ser_pos_list(ms)
    &&& b[pos + spec_ser_pos_list(ms).len()] != 44u8
}

/// Reads a comma-separated run of position objects: on the encoding of
/// `ms` it reads back exactly `ms`.
#[verifier::rlimit(60)]
#[verifier::spinoff_prover]
fn parse_pos_list(bytes: &Vec<u8>, pos: usize) -> (r: Option<(Vec<Position>, usize)>)
    ensures
        r matches Some(t) ==> pos < t.1 <= bytes@.len(),
        forall|ms: Seq<Position>|
            #[trigger] pos_list_at(bytes@, pos as int, ms) ==> (r matches Some(t) && t.0@ == ms
                && t.1 == pos + spec_ser_pos_list(ms).len()),
    decreases bytes@.len() - pos,
{
    let blen = bytes.len();
    proof {
        assert(bytes@.len() == blen);
    }
    let first = match parse_pos(bytes, pos) {
        Some(t) => t,
        None => {
            proof {
                assert forall|ms: Seq<Position>| !pos_list_at(bytes@, pos as int, ms) by {
                    if pos_list_at(bytes@, pos as int, ms) {
                        lemma_pos_list_head(ms);
                        if ms.len() == 1 {
                            assert(pos_at(bytes@, pos as int, ms[0]));
                        } else {
                            assert(spec_ser_pos_list(ms) =~= spec_ser_pos(ms[0]) + (seq![44u8]
                                + spec_ser_pos_list(ms.subrange(1, ms.len() as int))));
                            lemma_split(
                                bytes@,
                                pos as int,
                                spec_ser_pos(ms[0]),
                                seq![44u8] + spec_ser_pos_list(
                                    ms.subrange(1, ms.len() as int),
                                ),
                            );
                            assert(pos_at(bytes@, pos as int, ms[0]));
                        }
                        assert(false);
                    }
                }
            }
            return None;
        },
    };
    let (m, p) = first;
    if p < blen && bytes[p] == 44 {
        let rest = match parse_pos_list(bytes, p + 1) {
            Some(t) => t,
            None => {
                proof {
                    assert forall|ms: Seq<Position>| !pos_list_at(bytes@, pos as int, ms) by {
                        if pos_list_at(bytes@, pos as int, ms) {
                            lemma_pos_list_head(ms);
                            if ms.len() == 1 {
                                assert(pos_at(bytes@, pos as int, ms[0]));
                                assert(p == pos + spec_ser_pos_list(ms).len());
                                assert(false);
                            } else {
                                let tail = ms.subrange(1, ms.len() as int);
                                assert(spec_ser_pos_list(ms) =~= spec_ser_pos(ms[0]) + (
                                seq![44u8] + spec_ser_pos_list(tail)));
                                lemma_split(
                                    bytes@,
                                    pos as int,
                                    spec_ser_pos(ms[0]),
                                    seq![44u8] + spec_ser_pos_list(tail),
                                );
                                assert(pos_at(bytes@, pos as int, ms[0]));
                                assert(p == pos + spec_ser_pos(ms[0]).len());
                                lemma_split(
                                    bytes@,
                                    p as int,
                                    seq![44u8],
                                    spec_ser_pos_list(tail),
                                );
                                assert(pos_list_at(bytes@, p + 1, tail));
                                assert(false);
                            }
                        }
                    }
                }
                return None;
            },
        };
        let (mut rest_vec, end) = rest;
        rest_vec.insert(0, m);
        proof {
            assert forall|ms: Seq<Position>|
                pos_list_at(bytes@, pos as int, ms) implies (rest_vec@ == ms && end == pos
                + spec_ser_pos_list(ms).len()) by {
                lemma_pos_list_head(ms);
                if ms.len() == 1 {
                    assert(pos_at(bytes@, pos as int, ms[0]));
                    assert(p == pos + spec_ser_pos_list(ms).len());
                    assert(false);
                } else {
                    let tail = ms.subrange(1, ms.len() as int);
                    assert(spec_ser_pos_list(ms) =~= spec_ser_pos(ms[0]) + (seq![44u8]
                        + spec_ser_pos_list(tail)));
                    lemma_split(
                        bytes@,
                        pos as int,
                        spec_ser_pos(ms[0]),
                        seq![44u8] + spec_ser_pos_list(tail),
                    );
                    assert(pos_at(bytes@, pos as int, ms[0]));
                    assert(m == ms[0]);
                    assert(p == pos + spec_ser_pos(ms[0]).len());
                    lemma_split(bytes@, p as int, seq![44u8], spec_ser_pos_list(tail));
                    assert(pos_list_at(bytes@, p + 1, tail));
                    assert(rest_vec@ =~= seq![ms[0]] + tail);
                    assert(seq![ms[0]] + tail =~= ms);
                }
            }
        }
        Some((rest_vec, end))
    } else {
        let mut one: Vec<Position> = Vec::new();
        one.push(m);
        proof {
            assert forall|ms: Seq<Position>|
                pos_list_at(bytes@, pos as int, ms) implies (one@ == ms && p == pos
                + spec_ser_pos_list(ms).len()) by {
                lemma_pos_list_head(ms);
                if ms.len() >= 2 {
                    let tail = ms.subrange(1, ms.len() as int);
                    assert(spec_ser_pos_list(ms) =~= spec_ser_pos(ms[0]) + (seq![44u8]
                        + spec_ser_pos_list(tail)));
                    lemma_split(
                        bytes@,
                        pos as int,
                        spec_ser_pos(ms[0]),
                        seq![44u8] + spec_ser_pos_list(tail),
                    );
                    assert(pos_at(bytes@, pos as int, ms[0]));
                    assert(p == pos + spec_ser_pos(ms[0]).len());
                    lemma_split(bytes@, p as int, seq![44u8], spec_ser_pos_list(tail));
                    assert(bytes@.subrange(p as int, p + 1)[0] == 44u8);
                    assert(bytes@[p as int] == 44u8);
                    assert((p as int) < pos + spec_ser_pos_list(ms).len());
                    assert(false);
                } else {
                    assert(pos_at(bytes@, pos as int, ms[0]));
                    assert(m == ms[0]);
                    assert(one@ =~= ms);
                }
            }
        }
        Some((one, p))
    }
}

/// Everything of a click object past its tag: coordinates, duration, and
/// the two closing braces.
pub open spec fn spec_ser_click_rest(p: Position, d: u64) -> Seq<u8> {
    spec_ser_xy(p.x as u64, p.y as u64) + spec_lit_comma_duration() + spec_ser_u64(d) + seq![
        125u8,
        125u8,
    ]
}

/// The tag a click is serialized under.
pub open spec fn spec_click_tag(c: Click) -> Seq<u8> {
    match c {
        Click::Reveal(_, _) => spec_lit_reveal_tag(),
        Click::Flag(_, _) => spec_lit_flag_tag(),
    }
}

/// A click's body stands at `pos`.
pub open spec fn click_rest_at(b: Seq<u8>, pos: int, p: Position, d: u64) -> bool {
    &&& pos + spec_ser_click_rest(p, d).len() <= b.len()
    &&& b.subrange(pos, pos + spec_ser_click_rest(p, d).len()) == spec_ser_click_rest(p, d)
}

/// Breaks a range known to hold a click body into its pieces.
proof fn lemma_click_rest_decompose(b: Seq<u8>, pos: int, p: Position, d: u64)
    requires
        0 <= pos,
        click_rest_at(b, pos, p, d),
    ensures
        spec_ser_click_rest(p, d).len() == spec_ser_xy(p.x as u64, p.y as u64).len() + 12
            + spec_ser_u64(d).len() + 2,
        xy_at(b, pos, p.x as u64, p.y as u64),
        b.subrange(
            pos + spec_ser_xy(p.x as u64, p.y as u64).len(),
            pos + spec_ser_xy(p.x as u64, p.y as u64).len() + 12,
        ) == spec_lit_comma_duration(),
        b.subrange(
            pos + spec_ser_xy(p.x as u64, p.y as u64).len() + 12,
            pos + spec_ser_xy(p.x as u64, p.y as u64).len() + 12 + spec_ser_u64(d).len(),
        ) == spec_ser_u64(d),
        !spec_digit(b[pos + spec_ser_xy(p.x as u64, p.y as u64).len() + 12 + spec_ser_u64(
            d,
        ).len()]),
        b.subrange(
            pos + spec_ser_xy(p.x as u64, p.y as u64).len() + 12 + spec_ser_u64(d).len(),
            pos + spec_ser_click_rest(p, d).len(),
        ) == seq![125u8, 125u8],
{
    let head = spec_ser_xy(p.x as u64, p.y as u64);
    let sd = spec_ser_u64(d);
    let rest1 = spec_lit_comma_duration() + sd + seq![125u8, 125u8];
    assert(spec_ser_click_rest(p, d) =~= head + rest1);
    lemma_split(b, pos, head, rest1);
    let rest2 = sd + seq![125u8, 125u8];
    assert(rest1 =~= spec_lit_comma_duration() + rest2);
    lemma_split(b, pos + head.len(), spec_lit_comma_duration(), rest2);
    lemma_split(b, pos + head.len() + 12, sd, seq![125u8, 125u8]);
    assert(b.subrange(pos + head.len(), pos + head.len() + 12)[0] == 44u8);
    assert(b[pos + head.len()] == 44u8);
    assert(b.subrange(
        pos + head.len() + 12 + sd.len(),
        pos + spec_ser_click_rest(p, d).len(),
    )[0] == 125u8);
    assert(b[pos + head.len() + 12 + sd.len()] == 125u8);
    assert(!spec_digit(125u8));
}

/// Reads a click body: on the encoding for `(p, d)` it reads back exactly
/// those values.
fn parse_click_body(bytes: &Vec<u8>, pos: usize) -> (r: Option<(Position, u64, usize)>)
    ensures
        r matches Some(t) ==> pos < t.2 <= bytes@.len(),
        forall|p: Position, d: u64|
            #[trigger] click_rest_at(bytes@, pos as int, p, d) ==> r == Some(
                (p, d, (pos + spec_ser_click_rest(p, d).len()) as usize),
            ),
{
    let blen = bytes.len();
    proof {
        assert(bytes@.len() == blen);
    }
    let (x, y, p2) = match parse_xy(bytes, pos) {
        Some(t) => t,
        None => {
            proof {
                assert forall|p: Position, d: u64| !click_rest_at(bytes@, pos as int, p, d) by {
                    if click_rest_at(bytes@, pos as int, p, d) {
                        lemma_click_rest_decompose(bytes@, pos as int, p, d);
                    }
                }
            }
            return None;
        },
    };
    if x > usize::MAX as u64 || y > usize::MAX as u64 {
        proof {
            assert forall|p: Position, d: u64| !click_rest_at(bytes@, pos as int, p, d) by {
                if click_rest_at(bytes@, pos as int, p, d) {
                    lemma_click_rest_decompose(bytes@, pos as int, p, d);
                    assert(x == p.x as u64 && y == p.y as u64);
                    assert(false);
                }
            }
        }
        return None;
    }
    let p3 = match parse_lit(bytes, p2, &lit_comma_duration()) {
        Some(p) => p,
        None => {
            proof {
                assert forall|p: Position, d: u64| !click_rest_at(bytes@, pos as int, p, d) by {
                    if click_rest_at(bytes@, pos as int, p, d) {
                        lemma_click_rest_decompose(bytes@, pos as int, p, d);
                        let head = spec_ser_xy(p.x as u64, p.y as u64);
                        assert(p2 == pos + head.len());
                        assert(p2 + 12 <= bytes@.len());
                        assert(bytes@.subrange(p2 as int, p2 + 12) == spec_lit_comma_duration());
                        assert(false);
                    }
                }
            }
            return None;
        },
    };
    let (d, p4) = match parse_u64(bytes, p3) {
        Some(v) => v,
        None => {
            proof {
                assert forall|p: Position, dv: u64| !click_rest_at(bytes@, pos as int, p, dv) by {
                    if click_rest_at(bytes@, pos as int, p, dv) {
                        lemma_click_rest_decompose(bytes@, pos as int, p, dv);
                        let head = spec_ser_xy(p.x as u64, p.y as u64);
                        assert(p2 == pos + head.len());
                        assert(p3 == p2 + 12);
                        assert(p3 + spec_ser_u64(dv).len() <= bytes@.len());
                        assert(bytes@.subrange(p3 as int, p3 + spec_ser_u64(dv).len())
                            == spec_ser_u64(dv));
                        assert(!spec_digit(bytes@[p3 + spec_ser_u64(dv).len()]));
                        assert(false);
                    }
                }
            }
            return None;
        },
    };
    let close2 = vec![125u8, 125u8];
    proof {
        assert(close2@ =~= seq![125u8, 125u8]);
    }
    let p5 = match parse_lit(bytes, p4, &close2) {
        Some(p) => p,
        None => {
            proof {
                assert forall|p: Position, dv: u64| !click_rest_at(bytes@, pos as int, p, dv) by {
                    if click_rest_at(bytes@, pos as int, p, dv) {
                        lemma_click_rest_decompose(bytes@, pos as int, p, dv);
                        let head = spec_ser_xy(p.x as u64, p.y as u64);
                        assert(p2 == pos + head.len());
                        assert(p3 == p2 + 12);
                        assert(p3 + spec_ser_u64(dv).len() <= bytes@.len());
                        assert(bytes@.subrange(p3 as int, p3 + spec_ser_u64(dv).len())
                            == spec_ser_u64(dv));
                        assert(!spec_digit(bytes@[p3 + spec_ser_u64(dv).len()]));
                        assert(d == dv && p4 == p3 + spec_ser_u64(dv).len());
                        assert(p4 + close2@.len() <= bytes@.len());
                        assert(bytes@.subrange(p4 as int, p4 + close2@.len()) == close2@);
                        assert(false);
                    }
                }
            }
            return None;
        },
    };
    proof {
        assert forall|p: Position, dv: u64|
            click_rest_at(bytes@, pos as int, p, dv) implies ((Position {
            x: x as usize,
            y: y as usize,
        }) == p && d == dv && p5 == pos + spec_ser_click_rest(p, dv).len()) by {
            lemma_click_rest_decompose(bytes@, pos as int, p, dv);
            let head = spec_ser_xy(p.x as u64, p.y as u64);
            assert(x == p.x as u64 && y == p.y as u64);
            assert(p2 == pos + head.len());
            assert(p3 == p2 + 12);
            assert(p3 + spec_ser_u64(dv).len() <= bytes@.len());
            assert(bytes@.subrange(p3 as int, p3 + spec_ser_u64(dv).len()) == spec_ser_u64(dv));
            assert(!spec_digit(bytes@[p3 + spec_ser_u64(dv).len()]));
            assert(d == dv && p4 == p3 + spec_ser_u64(dv).len());
            assert(p4 + close2@.len() <= bytes@.len());
            assert(bytes@.subrange(p4 as int, p4 + close2@.len()) == close2@);
            assert(p5 == p4 + 2);
        }
    }
    Some((Position { x: x as usize, y: y as usize }, d, p5))
}

/// A click object stands at `pos`.
pub open spec fn click_at(b: Seq<u8>, pos: int, c: Click) -> bool {
    &&& pos + spec_ser_click(c).len() <= b.len()
    &&& b.subrange(pos, pos + spec_ser_click(c).len()) == spec_ser_click(c)
}

/// Breaks a range known to hold a click object into its tag and body.
proof fn lemma_click_decompose(b: Seq<u8>, pos: int, c: Click)
    requires
        0 <= pos,
        click_at(b, pos, c),
    ensures
        spec_ser_click(c).len() == spec_click_tag(c).len() + spec_ser_click_rest(
            c.spec_position(),
            c.spec_duration(),
        ).len(),
        b.subrange(pos, pos + spec_click_tag(c).len()) == spec_click_tag(c),
        click_rest_at(b, pos + spec_click_tag(c).len(), c.spec_position(), c.spec_duration()),
        b[pos + 2] == spec_click_tag(c)[2],
{
    let tag = spec_click_tag(c);
    let rest = spec_ser_click_rest(c.spec_position(), c.spec_duration());
    assert(spec_ser_click(c) =~= tag + rest);
    lemma_split(b, pos, tag, rest);
    assert(b.subrange(pos, pos + tag.len())[2] == tag[2]);
}

/// Reads a tagged click object: on the encoding of `c` it reads back `c`.
fn parse_click(bytes: &Vec<u8>, pos: usize) -> (r: Option<(Click, usize)>)
    ensures
        r matches Some(t) ==> pos < t.1 <= bytes@.len(),
        forall|c: Click|
            #[trigger] click_at(bytes@, pos as int, c) ==> r == Some(
                (c, (pos + spec_ser_click(c).len()) as usize),
            ),
{
    let blen = bytes.len();
    proof {
        assert(bytes@.len() == blen);
    }
    let mut is_reveal = true;
    let mut p1: usize = 0;
    match parse_lit(bytes, pos, &lit_reveal_tag()) {
        Some(p) => {
            p1 = p;
        },
        None => {
            match parse_lit(bytes, pos, &lit_flag_tag()) {
                Some(p) => {
                    is_reveal = false;
                    p1 = p;
                },
                None => {
                    proof {
                        assert forall|c: Click| !click_at(bytes@, pos as int, c) by {
                            if click_at(bytes@, pos as int, c) {
                                lemma_click_decompose(bytes@, pos as int, c);
                            }
                        }
                    }
                    return None;
                },
            }
        },
    }
    proof {
        assert forall|c: Click|
            click_at(bytes@, pos as int, c) implies ((c is Reveal <==> is_reveal) && p1 == pos
            + spec_click_tag(c).len()) by {
            lemma_click_decompose(bytes@, pos as int, c);
            if c is Reveal {
                // the Reveal tag stands at pos, so the first attempt succeeded
                assert(bytes@.subrange(pos as int, pos + 10) == spec_lit_reveal_tag());
            } else {
                // a Flag tag cannot begin with the Reveal tag: byte 2 differs
                if is_reveal {
                    assert(bytes@.subrange(pos as int, pos + 10)[2] == 82u8);
                    assert(bytes@[pos + 2] == 82u8);
                    assert(bytes@[pos + 2] == 70u8);
                    assert(false);
                }
                assert(bytes@.subrange(pos as int, pos + 8) == spec_lit_flag_tag());
            }
        }
    }
    let body = match parse_click_body(bytes, p1) {
        Some(t) => t,
        None => {
            proof {
                assert forall|c: Click| !click_at(bytes@, pos as int, c) by {
                    if click_at(bytes@, pos as int, c) {
                        lemma_click_decompose(bytes@, pos as int, c);
                        assert(click_rest_at(
                            bytes@,
                            p1 as int,
                            c.spec_position(),
                            c.spec_duration(),
                        ));
                        assert(false);
                    }
                }
            }
            return None;
        },
    };
    let (position, d, p5) = body;
    let click = if is_reveal {
        Click::Reveal(position, d)
    } else {
        Click::Flag(position, d)
    };
    proof {
        assert forall|c: Click|
            click_at(bytes@, pos as int, c) implies (click == c && p5 == pos + spec_ser_click(
            c,
        ).len()) by {
            lemma_click_decompose(bytes@, pos as int, c);
            assert(click_rest_at(bytes@, p1 as int, c.spec_position(), c.spec_duration()));
            assert(position == c.spec_position() && d == c.spec_duration());
        }
    }
    Some((click, p5))
}

/// A non-empty click list stands at `pos`, with no comma right after
/// it (so the parser knows where it ends).
pub open spec fn click_list_at(b: Seq<u8>, pos: int, ms: Seq<Click>) -> bool {
    &&& ms.len() >= 1
    &&& pos + spec_ser_click_list(ms).len() < b.len()
    &&& b.subrange(pos, pos + spec_ser_click_list(ms).len()) == spec_ser_click_list(ms)
    &&& b[pos + spec_ser_click_list(ms).len()] != 44u8
}

/// Reads a comma-separated run of click objects: on the encoding of
/// `ms` it reads back exactly `ms`.
#[verifier::rlimit(60)]
#[verifier::spinoff_prover]
fn parse_click_list(bytes: &Vec<u8>, pos: usize) -> (r: Option<(Vec<Click>, usize)>)
    ensures
        r matches Some(t) ==> pos < t.1 <= bytes@.len(),
        forall|ms: Seq<Click>|
            #[trigger] click_list_at(bytes@, pos as int, ms) ==> (r matches Some(t) && t.0@ == ms
                && t.1 == pos + spec_ser_click_list(ms).len()),
    decreases bytes@.len() - pos,
{
    let blen = bytes.len();
    proof {
        assert(bytes@.len() == blen);
    }
    let first = match parse_click(bytes, pos) {
        Some(t) => t,
        None => {
            proof {
                assert forall|ms: Seq<Click>| !click_list_at(bytes@, pos as int, ms) by {
                    if click_list_at(bytes@, pos as int, ms) {
                        lemma_click_list_head(ms);
                        if ms.len() == 1 {
                            assert(click_at(bytes@, pos as int, ms[0]));
                        } else {
                            assert(spec_ser_click_list(ms) =~= spec_ser_click(ms[0]) + (seq![44u8]
                                + spec_ser_click_list(ms.subrange(1, ms.len() as int))));
                            lemma_split(
                                bytes@,
                                pos as int,
                                spec_ser_click(ms[0]),
                                seq![44u8] + spec_ser_click_list(
                                    ms.subrange(1, ms.len() as int),
                                ),
                            );
                            assert(click_at(bytes@, pos as int, ms[0]));
                        }
                        assert(false);
                    }
                }
            }
            return None;
        },
    };
    let (m, p) = first;
    if p < blen && bytes[p] == 44 {
        let rest = match parse_click_list(bytes, p + 1) {
            Some(t) => t,
            None => {
                proof {
                    assert forall|ms: Seq<Click>| !click_list_at(bytes@, pos as int, ms) by {
                        if click_list_at(bytes@, pos as int, ms) {
                            lemma_click_list_head(ms);
                            if ms.len() == 1 {
                                assert(click_at(bytes@, pos as int, ms[0]));
                                assert(p == pos + spec_ser_click_list(ms).len());
                                assert(false);
                            } else {
                                let tail = ms.subrange(1, ms.len() as int);
                                assert(spec_ser_click_list(ms) =~= spec_ser_click(ms[0]) + (
                                seq![44u8] + spec_ser_click_list(tail)));
                                lemma_split(
                                    bytes@,
                                    pos as int,
                                    spec_ser_click(ms[0]),
                                    seq![44u8] + spec_ser_click_list(tail),
                                );
                                assert(click_at(bytes@, pos as int, ms[0]));
                                assert(p == pos + spec_ser_click(ms[0]).len());
                                lemma_split(
                                    bytes@,
                                    p as int,
                                    seq![44u8],
                                    spec_ser_click_list(tail),
                                );
                                assert(click_list_at(bytes@, p + 1, tail));
                                assert(false);
                            }
                        }
                    }
                }
                return None;
            },
        };
        let (mut rest_vec, end) = rest;
        rest_vec.insert(0, m);
        proof {
            assert forall|ms: Seq<Click>|
                click_list_at(bytes@, pos as int, ms) implies (rest_vec@ == ms && end == pos
                + spec_ser_click_list(ms).len()) by {
                lemma_click_list_head(ms);
                if ms.len() == 1 {
                    assert(click_at(bytes@, pos as int, ms[0]));
                    assert(p == pos + spec_ser_click_list(ms).len());
                    assert(false);
                } else {
                    let tail = ms.subrange(1, ms.len() as int);
                    assert(spec_ser_click_list(ms) =~= spec_ser_click(ms[0]) + (seq![44u8]
                        + spec_ser_click_list(tail)));
                    lemma_split(
                        bytes@,
                        pos as int,
                        spec_ser_click(ms[0]),
                        seq![44u8] + spec_ser_click_list(tail),
                    );
                    assert(click_at(bytes@, pos as int, ms[0]));
                    assert(m == ms[0]);
                    assert(p == pos + spec_ser_click(ms[0]).len());
                    lemma_split(bytes@, p as int, seq![44u8], spec_ser_click_list(tail));
                    assert(click_list_at(bytes@, p + 1, tail));
                    assert(rest_vec@ =~= seq![ms[0]] + tail);
                    assert(seq![ms[0]] + tail =~= ms);
                }
            }
        }
        Some((rest_vec, end))
    } else {
        let mut one: Vec<Click> = Vec::new();
        one.push(m);
        proof {
            assert forall|ms: Seq<Click>|
                click_list_at(bytes@, pos as int, ms) implies (one@ == ms && p == pos
                + spec_ser_click_list(ms).len()) by {
                lemma_click_list_head(ms);
                if ms.len() >= 2 {
                    let tail = ms.subrange(1, ms.len() as int);
                    assert(spec_ser_click_list(ms) =~= spec_ser_click(ms[0]) + (seq![44u8]
                        + spec_ser_click_list(tail)));
                    lemma_split(
                        bytes@,
                        pos as int,
                        spec_ser_click(ms[0]),
                        seq![44u8] + spec_ser_click_list(tail),
                    );
                    assert(click_at(bytes@, pos as int, ms[0]));
                    assert(p == pos + spec_ser_click(ms[0]).len());
                    lemma_split(bytes@, p as int, seq![44u8], spec_ser_click_list(tail));
                    assert(bytes@.subrange(p as int, p + 1)[0] == 44u8);
                    assert(bytes@[p as int] == 44u8);
                    assert((p as int) < pos + spec_ser_click_list(ms).len());
                    assert(false);
                } else {
                    assert(click_at(bytes@, pos as int, ms[0]));
                    assert(m == ms[0]);
                    assert(one@ =~= ms);
                }
            }
        }
        Some((one, p))
    }
}

/// A whole file object stands at `pos`.
pub open spec fn file_at(b: Seq<u8>, pos: int, g: ReplayFile) -> bool {
    &&& pos + spec_ser_file(g).len() <= b.len()
    &&& b.subrange(pos, pos + spec_ser_file(g).len()) == spec_ser_file(g)
}

/// Breaks a range known to hold a file object into its eleven pieces,
/// with the facts the parser needs to walk them: where each piece starts,
/// and what byte delimits it.
#[verifier::rlimit(100)]
#[verifier::spinoff_prover]
proof fn lemma_file_decompose(b: Seq<u8>, pos: int, g: ReplayFile)
    requires
        0 <= pos,
        file_at(b, pos, g),
    ensures
        ({
            let lm = spec_ser_pos_list(g.mines@).len();
            let lw = spec_ser_u64(g.size.0 as u64).len();
            let lh = spec_ser_u64(g.size.1 as u64).len();
            let lc = spec_ser_click_list(g.clicks@).len();
            let ld = spec_ser_u64(g.duration).len();
            &&& spec_ser_file(g).len() == 47 + lm + lw + lh + lc + ld
            &&& b.subrange(pos, pos + 10) == spec_lit_mines_head()
            &&& (g.mines@.len() == 0 ==> b[pos + 10] == 93u8)
            &&& (g.mines@.len() >= 1 ==> b[pos + 10] == 123u8 && pos_list_at(
                b,
                pos + 10,
                g.mines@,
            ))
            &&& b.subrange(pos + 10 + lm, pos + 20 + lm) == spec_lit_size_head()
            &&& b.subrange(pos + 20 + lm, pos + 20 + lm + lw) == spec_ser_u64(g.size.0 as u64)
            &&& !spec_digit(b[pos + 20 + lm + lw])
            &&& b.subrange(pos + 20 + lm + lw, pos + 21 + lm + lw) == seq![44u8]
            &&& b.subrange(pos + 21 + lm + lw, pos + 21 + lm + lw + lh) == spec_ser_u64(
                g.size.1 as u64,
            )
            &&& !spec_digit(b[pos + 21 + lm + lw + lh])
            &&& b.subrange(pos + 21 + lm + lw + lh, pos + 33 + lm + lw + lh)
                == spec_lit_clicks_head()
            &&& (g.clicks@.len() == 0 ==> b[pos + 33 + lm + lw + lh] == 93u8)
            &&& (g.clicks@.len() >= 1 ==> b[pos + 33 + lm + lw + lh] == 123u8 && click_list_at(
                b,
                pos + 33 + lm + lw + lh,
                g.clicks@,
            ))
            &&& b.subrange(pos + 33 + lm + lw + lh + lc, pos + 46 + lm + lw + lh + lc)
                == spec_lit_duration_head()
            &&& b.subrange(pos + 46 + lm + lw + lh + lc, pos + 46 + lm + lw + lh + lc + ld)
                == spec_ser_u64(g.duration)
            &&& !spec_digit(b[pos + 46 + lm + lw + lh + lc + ld])
            &&& b.subrange(pos + 46 + lm + lw + lh + lc + ld, pos + 47 + lm + lw + lh + lc + ld)
                == seq![125u8]
        }),
{
    let m = g.mines@;
    let c = g.clicks@;
    let sm = spec_ser_pos_list(m);
    let sw = spec_ser_u64(g.size.0 as u64);
    let sh = spec_ser_u64(g.size.1 as u64);
    let sc = spec_ser_click_list(c);
    let sd = spec_ser_u64(g.duration);
    let lm = sm.len();
    let lw = sw.len();
    let lh = sh.len();
    let lc = sc.len();
    let ld = sd.len();
    let r1 = sm + spec_lit_size_head() + sw + seq![44u8] + sh + spec_lit_clicks_head() + sc
        + spec_lit_duration_head() + sd + seq![125u8];
    assert(spec_ser_file(g) =~= spec_lit_mines_head() + r1);
    lemma_split(b, pos, spec_lit_mines_head(), r1);
    let r2 = spec_lit_size_head() + sw + seq![44u8] + sh + spec_lit_clicks_head() + sc
        + spec_lit_duration_head() + sd + seq![125u8];
    assert(r1 =~= sm + r2);
    lemma_split(b, pos + 10, sm, r2);
    let r3 = sw + seq![44u8] + sh + spec_lit_clicks_head() + sc + spec_lit_duration_head() + sd
        + seq![125u8];
    assert(r2 =~= spec_lit_size_head() + r3);
    lemma_split(b, pos + 10 + lm, spec_lit_size_head(), r3);
    let r4 = seq![44u8] + sh + spec_lit_clicks_head() + sc + spec_lit_duration_head() + sd
        + seq![125u8];
    assert(r3 =~= sw + r4);
    lemma_split(b, pos + 20 + lm, sw, r4);
    let r5 = sh + spec_lit_clicks_head() + sc + spec_lit_duration_head() + sd + seq![125u8];
    assert(r4 =~= seq![44u8] + r5);
    lemma_split(b, pos + 20 + lm + lw, seq![44u8], r5);
    let r6 = spec_lit_clicks_head() + sc + spec_lit_duration_head() + sd + seq![125u8];
    assert(r5 =~= sh + r6);
    lemma_split(b, pos + 21 + lm + lw, sh, r6);
    let r7 = sc + spec_lit_duration_head() + sd + seq![125u8];
    assert(r6 =~= spec_lit_clicks_head() + r7);
    lemma_split(b, pos + 21 + lm + lw + lh, spec_lit_clicks_head(), r7);
    let r8 = spec_lit_duration_head() + sd + seq![125u8];
    assert(r7 =~= sc + r8);
    lemma_split(b, pos + 33 + lm + lw + lh, sc, r8);
    let r9 = sd + seq![125u8];
    assert(r8 =~= spec_lit_duration_head() + r9);
    lemma_split(b, pos + 33 + lm + lw + lh + lc, spec_lit_duration_head(), r9);
    lemma_split(b, pos + 46 + lm + lw + lh + lc, sd, seq![125u8]);
    // delimiter bytes
    assert(b.subrange(pos + 20 + lm + lw, pos + 21 + lm + lw)[0] == 44u8);
    assert(b[pos + 20 + lm + lw] == 44u8);
    assert(!spec_digit(44u8));
    assert(b.subrange(pos + 21 + lm + lw + lh, pos + 33 + lm + lw + lh)[0] == 93u8);
    assert(b[pos + 21 + lm + lw + lh] == 93u8);
    assert(!spec_digit(93u8));
    assert(b.subrange(pos + 46 + lm + lw + lh + lc + ld, pos + 47 + lm + lw + lh + lc + ld)[0]
        == 125u8);
    assert(b[pos + 46 + lm + lw + lh + lc + ld] == 125u8);
    assert(!spec_digit(125u8));
    // what opens and follows the mines list
    if m.len() == 0 {
        assert(b.subrange(pos + 10 + lm, pos + 20 + lm)[0] == 93u8);
        assert(b[pos + 10] == 93u8);
    } else {
        lemma_pos_list_head(m);
        assert(sm[0] == spec_ser_pos(m[0])[0]);
        assert(spec_ser_pos(m[0])[0] == 123u8);
        assert(b.subrange(pos + 10, pos + 10 + lm)[0] == sm[0]);
        assert(b[pos + 10] == 123u8);
        assert(b.subrange(pos + 10 + lm, pos + 20 + lm)[0] == 93u8);
        assert(b[pos + 10 + lm] == 93u8);
        assert(pos + 10 + lm < b.len());
        assert(pos_list_at(b, pos + 10, m));
    }
    // what opens and follows the clicks list
    if c.len() == 0 {
        assert(b.subrange(pos + 33 + lm + lw + lh + lc, pos + 46 + lm + lw + lh + lc)[0]
            == 93u8);
        assert(b[pos + 33 + lm + lw + lh] == 93u8);
    } else {
        lemma_click_list_head(c);
        assert(sc[0] == spec_ser_click(c[0])[0]);
        assert(spec_ser_click(c[0])[0] == 123u8);
        assert(b.subrange(pos + 33 + lm + lw + lh, pos + 33 + lm + lw + lh + lc)[0] == sc[0]);
        assert(b[pos + 33 + lm + lw + lh] == 123u8);
        assert(b.subrange(pos + 33 + lm + lw + lh + lc, pos + 46 + lm + lw + lh + lc)[0]
            == 93u8);
        assert(b[pos + 33 + lm + lw + lh + lc] == 93u8);
        assert(pos + 33 + lm + lw + lh + lc < b.len());
        assert(click_list_at(b, pos + 33 + lm + lw + lh, c));
    }
}

/// The mines-stage facts of a file object.
proof fn lemma_file_mines(b: Seq<u8>, pos: int, g: ReplayFile)
    requires
        0 <= pos,
        file_at(b, pos, g),
    ensures
        spec_ser_file(g).len() == 47 + spec_ser_pos_list(g.mines@).len() + spec_ser_u64(
            g.size.0 as u64,
        ).len() + spec_ser_u64(g.size.1 as u64).len() + spec_ser_click_list(g.clicks@).len()
            + spec_ser_u64(g.duration).len(),
        b.subrange(pos, pos + 10) == spec_lit_mines_head(),
        g.mines@.len() == 0 ==> b[pos + 10] == 93u8,
        g.mines@.len() >= 1 ==> b[pos + 10] == 123u8 && pos_list_at(b, pos + 10, g.mines@),
{
    lemma_file_decompose(b, pos, g);
}

/// The size-stage facts of a file object, relative to the end of the
/// mines list.
proof fn lemma_file_size(b: Seq<u8>, pos: int, g: ReplayFile)
    requires
        0 <= pos,
        file_at(b, pos, g),
    ensures
        ({
            let o2 = pos + 10 + spec_ser_pos_list(g.mines@).len();
            let lw = spec_ser_u64(g.size.0 as u64).len();
            let lh = spec_ser_u64(g.size.1 as u64).len();
            &&& o2 + 10 + lw + 1 + lh <= b.len()
            &&& b.subrange(o2, o2 + 10) == spec_lit_size_head()
            &&& b.subrange(o2 + 10, o2 + 10 + lw) == spec_ser_u64(g.size.0 as u64)
            &&& !spec_digit(b[o2 + 10 + lw])
            &&& b.subrange(o2 + 10 + lw, o2 + 11 + lw) == seq![44u8]
            &&& b.subrange(o2 + 11 + lw, o2 + 11 + lw + lh) == spec_ser_u64(g.size.1 as u64)
            &&& !spec_digit(b[o2 + 11 + lw + lh])
        }),
{
    lemma_file_decompose(b, pos, g);
}

/// The clicks-stage facts of a file object, relative to the end of the
/// size field.
proof fn lemma_file_clicks(b: Seq<u8>, pos: int, g: ReplayFile)
    requires
        0 <= pos,
        file_at(b, pos, g),
    ensures
        ({
            let o6 = pos + 21 + spec_ser_pos_list(g.mines@).len() + spec_ser_u64(
                g.size.0 as u64,
            ).len() + spec_ser_u64(g.size.1 as u64).len();
            let lc = spec_ser_click_list(g.clicks@).len();
            &&& o6 + 12 + lc <= b.len()
            &&& b.subrange(o6, o6 + 12) == spec_lit_clicks_head()
            &&& (g.clicks@.len() == 0 ==> b[o6 + 12] == 93u8)
            &&& (g.clicks@.len() >= 1 ==> b[o6 + 12] == 123u8 && click_list_at(
                b,
                o6 + 12,
                g.clicks@,
            ))
        }),
{
    lemma_file_decompose(b, pos, g);
}

/// The duration-stage facts of a file object, relative to the end of the
/// clicks list.
proof fn lemma_file_tail(b: Seq<u8>, pos: int, g: ReplayFile)
    requires
        0 <= pos,
        file_at(b, pos, g),
    ensures
        ({
            let o8 = pos + 33 + spec_ser_pos_list(g.mines@).len() + spec_ser_u64(
                g.size.0 as u64,
            ).len() + spec_ser_u64(g.size.1 as u64).len() + spec_ser_click_list(
                g.clicks@,
            ).len();
            let ld = spec_ser_u64(g.duration).len();
            &&& o8 + 13 + ld + 1 <= b.len()
            &&& o8 + 13 + ld + 1 == pos + spec_ser_file(g).len()
            &&& b.subrange(o8, o8 + 13) == spec_lit_duration_head()
            &&& b.subrange(o8 + 13, o8 + 13 + ld) == spec_ser_u64(g.duration)
            &&& !spec_digit(b[o8 + 13 + ld])
            &&& b.subrange(o8 + 13 + ld, o8 + 14 + ld) == seq![125u8]
        }),
{
    lemma_file_decompose(b, pos, g);
}

/// The state `parse_file_rest` starts from: a file object for `g` begins
/// at `pos0` and `p5` sits right after its size field.
pub open spec fn file_rest_hyp(b: Seq<u8>, pos0: int, p5: int, g: ReplayFile) -> bool {
    &&& file_at(b, pos0, g)
    &&& p5 == pos0 + 21 + spec_ser_pos_list(g.mines@).len() + spec_ser_u64(
        g.size.0 as u64,
    ).len() + spec_ser_u64(g.size.1 as u64).len()
}

/// Reads the clicks list, the duration and the closing brace of a file
/// object; `pos0` is where the whole object begins.
#[verifier::rlimit(100)]
#[verifier::spinoff_prover]
fn parse_file_rest(bytes: &Vec<u8>, p5: usize, Ghost(pos0): Ghost<int>) -> (r: Option<
    (Vec<Click>, u64, usize),
>)
    requires
        0 <= pos0,
    ensures
        r matches Some(t) ==> p5 <= t.2 <= bytes@.len(),
        forall|g: ReplayFile|
            #[trigger] file_rest_hyp(bytes@, pos0, p5 as int, g) ==> (r matches Some(t) && t.0@
                == g.clicks@ && t.1 == g.duration && t.2 == pos0 + spec_ser_file(g).len()),
{
    let blen = bytes.len();
    proof {
        assert(bytes@.len() == blen);
    }
    let p6 = match parse_lit(bytes, p5, &lit_clicks_head()) {
        Some(p) => p,
        None => {
            proof {
                assert forall|g: ReplayFile| !(#[trigger] file_rest_hyp(bytes@, pos0, p5 as int, g)) by {
                    if file_rest_hyp(bytes@, pos0, p5 as int, g) {
                        lemma_file_clicks(bytes@, pos0, g);
                        assert(p5 + 12 <= bytes@.len());
                        assert(bytes@.subrange(p5 as int, p5 + 12) == spec_lit_clicks_head());
                        assert(false);
                    }
                }
            }
            return None;
        },
    };
    let clicks_parsed: (Vec<Click>, usize) = if p6 < blen && bytes[p6] == 123u8 {
        match parse_click_list(bytes, p6) {
            Some(t) => t,
            None => {
                proof {
                    assert forall|g: ReplayFile| !(#[trigger] file_rest_hyp(bytes@, pos0, p5 as int, g)) by {
                        if file_rest_hyp(bytes@, pos0, p5 as int, g) {
                            lemma_file_clicks(bytes@, pos0, g);
                            assert(p6 == p5 + 12);
                            if g.clicks@.len() == 0 {
                                assert(bytes@[p6 as int] == 93u8);
                                assert(false);
                            } else {
                                assert(click_list_at(bytes@, p6 as int, g.clicks@));
                                assert(false);
                            }
                        }
                    }
                }
                return None;
            },
        }
    } else {
        (Vec::new(), p6)
    };
    let (clicks, cur2) = clicks_parsed;
    proof {
        assert forall|g: ReplayFile|
            #[trigger] file_rest_hyp(bytes@, pos0, p5 as int, g) implies (clicks@ == g.clicks@
            && cur2 == pos0 + 33 + spec_ser_pos_list(
            g.mines@,
        ).len() + spec_ser_u64(g.size.0 as u64).len() + spec_ser_u64(g.size.1 as u64).len()
            + spec_ser_click_list(g.clicks@).len()) by {
            lemma_file_clicks(bytes@, pos0, g);
            assert(p6 == p5 + 12);
            if g.clicks@.len() == 0 {
                assert(bytes@[p6 as int] == 93u8);
                assert(clicks@ =~= g.clicks@);
            } else {
                assert(bytes@[p6 as int] == 123u8);
                assert((p6 as int) < bytes@.len());
                assert(click_list_at(bytes@, p6 as int, g.clicks@));
            }
        }
    }
    let p7 = match parse_lit(bytes, cur2, &lit_duration_head()) {
        Some(p) => p,
        None => {
            proof {
                assert forall|g: ReplayFile| !(#[trigger] file_rest_hyp(bytes@, pos0, p5 as int, g)) by {
                    if file_rest_hyp(bytes@, pos0, p5 as int, g) {
                        lemma_file_tail(bytes@, pos0, g);
                        assert(cur2 + 13 <= bytes@.len());
                        assert(bytes@.subrange(cur2 as int, cur2 + 13)
                            == spec_lit_duration_head());
                        assert(false);
                    }
                }
            }
            return None;
        },
    };
    let (dur, p8) = match parse_u64(bytes, p7) {
        Some(v) => v,
        None => {
            proof {
                assert forall|g: ReplayFile| !(#[trigger] file_rest_hyp(bytes@, pos0, p5 as int, g)) by {
                    if file_rest_hyp(bytes@, pos0, p5 as int, g) {
                        lemma_file_tail(bytes@, pos0, g);
                        assert(p7 == cur2 + 13);
                        assert(p7 + spec_ser_u64(g.duration).len() <= bytes@.len());
                        assert(bytes@.subrange(p7 as int, p7 + spec_ser_u64(g.duration).len())
                            == spec_ser_u64(g.duration));
                        assert(!spec_digit(bytes@[p7 + spec_ser_u64(g.duration).len()]));
                        assert(false);
                    }
                }
            }
            return None;
        },
    };
    let close3 = vec![125u8];
    proof {
        assert(close3@ =~= seq![125u8]);
    }
    let p9 = match parse_lit(bytes, p8, &close3) {
        Some(p) => p,
        None => {
            proof {
                assert forall|g: ReplayFile| !(#[trigger] file_rest_hyp(bytes@, pos0, p5 as int, g)) by {
                    if file_rest_hyp(bytes@, pos0, p5 as int, g) {
                        lemma_file_tail(bytes@, pos0, g);
                        assert(p7 == cur2 + 13);
                        assert(dur == g.duration && p8 == p7 + spec_ser_u64(g.duration).len());
                        assert(bytes@.subrange(p8 as int, p8 + 1) == seq![125u8]);
                        assert(false);
                    }
                }
            }
            return None;
        },
    };
    proof {
        assert forall|g: ReplayFile|
            #[trigger] file_rest_hyp(bytes@, pos0, p5 as int, g) implies (clicks@ == g.clicks@
            && dur == g.duration && p9 == pos0 + spec_ser_file(g).len()) by {
            lemma_file_tail(bytes@, pos0, g);
            assert(p7 == cur2 + 13);
            assert(dur == g.duration && p8 == p7 + spec_ser_u64(g.duration).len());
            assert(p9 == p8 + 1);
        }
    }
    Some((clicks, dur, p9))
}

/// The state `parse_file_size` starts from: a file object for `g` begins
/// at `pos0` and `cur` sits right after its mines list.
pub open spec fn file_size_hyp(b: Seq<u8>, pos0: int, cur: int, g: ReplayFile) -> bool {
    &&& file_at(b, pos0, g)
    &&& cur == pos0 + 10 + spec_ser_pos_list(g.mines@).len()
}

/// Reads the size field of a file object; `pos0` is where the whole
/// object begins.
#[verifier::rlimit(100)]
#[verifier::spinoff_prover]
fn parse_file_size(bytes: &Vec<u8>, cur: usize, Ghost(pos0): Ghost<int>) -> (r: Option<
    (u64, u64, usize),
>)
    requires
        0 <= pos0,
    ensures
        r matches Some(t) ==> cur <= t.2 <= bytes@.len(),
        forall|g: ReplayFile|
            #[trigger] file_size_hyp(bytes@, pos0, cur as int, g) ==> (r matches Some(t) && t.0
                == g.size.0 as u64 && t.1 == g.size.1 as u64 && t.2 == pos0 + 21
                + spec_ser_pos_list(g.mines@).len() + spec_ser_u64(g.size.0 as u64).len()
                + spec_ser_u64(g.size.1 as u64).len()),
{
    let blen = bytes.len();
    proof {
        assert(bytes@.len() == blen);
    }
    let p2 = match parse_lit(bytes, cur, &lit_size_head()) {
        Some(p) => p,
        None => {
            proof {
                assert forall|g: ReplayFile|
                    !(#[trigger] file_size_hyp(bytes@, pos0, cur as int, g)) by {
                    if file_size_hyp(bytes@, pos0, cur as int, g) {
                        lemma_file_size(bytes@, pos0, g);
                        assert(cur + 10 <= bytes@.len());
                        assert(bytes@.subrange(cur as int, cur + 10) == spec_lit_size_head());
                        assert(false);
                    }
                }
            }
            return None;
        },
    };
    let (w, p3) = match parse_u64(bytes, p2) {
        Some(v) => v,
        None => {
            proof {
                assert forall|g: ReplayFile|
                    !(#[trigger] file_size_hyp(bytes@, pos0, cur as int, g)) by {
                    if file_size_hyp(bytes@, pos0, cur as int, g) {
                        lemma_file_size(bytes@, pos0, g);
                        assert(p2 == cur + 10);
                        assert(p2 + spec_ser_u64(g.size.0 as u64).len() <= bytes@.len());
                        assert(bytes@.subrange(
                            p2 as int,
                            p2 + spec_ser_u64(g.size.0 as u64).len(),
                        ) == spec_ser_u64(g.size.0 as u64));
                        assert(!spec_digit(bytes@[p2 + spec_ser_u64(g.size.0 as u64).len()]));
                        assert(false);
                    }
                }
            }
            return None;
        },
    };
    let commav = vec![44u8];
    proof {
        assert(commav@ =~= seq![44u8]);
    }
    let p4 = match parse_lit(bytes, p3, &commav) {
        Some(p) => p,
        None => {
            proof {
                assert forall|g: ReplayFile|
                    !(#[trigger] file_size_hyp(bytes@, pos0, cur as int, g)) by {
                    if file_size_hyp(bytes@, pos0, cur as int, g) {
                        lemma_file_size(bytes@, pos0, g);
                        assert(p2 == cur + 10);
                        assert(w == g.size.0 as u64 && p3 == p2 + spec_ser_u64(
                            g.size.0 as u64,
                        ).len());
                        assert(bytes@.subrange(p3 as int, p3 + 1) == seq![44u8]);
                        assert(false);
                    }
                }
            }
            return None;
        },
    };
    let (h, p5) = match parse_u64(bytes, p4) {
        Some(v) => v,
        None => {
            proof {
                assert forall|g: ReplayFile|
                    !(#[trigger] file_size_hyp(bytes@, pos0, cur as int, g)) by {
                    if file_size_hyp(bytes@, pos0, cur as int, g) {
                        lemma_file_size(bytes@, pos0, g);
                        assert(p2 == cur + 10);
                        assert(w == g.size.0 as u64 && p3 == p2 + spec_ser_u64(
                            g.size.0 as u64,
                        ).len());
                        assert(p4 == p3 + 1);
                        assert(p4 + spec_ser_u64(g.size.1 as u64).len() <= bytes@.len());
                        assert(bytes@.subrange(
                            p4 as int,
                            p4 + spec_ser_u64(g.size.1 as u64).len(),
                        ) == spec_ser_u64(g.size.1 as u64));
                        assert(!spec_digit(bytes@[p4 + spec_ser_u64(g.size.1 as u64).len()]));
                        assert(false);
                    }
                }
            }
            return None;
        },
    };
    proof {
        assert forall|g: ReplayFile|
            #[trigger] file_size_hyp(bytes@, pos0, cur as int, g) implies (w == g.size.0 as u64
            && h == g.size.1 as u64 && p5 == pos0 + 21 + spec_ser_pos_list(g.mines@).len()
            + spec_ser_u64(g.size.0 as u64).len() + spec_ser_u64(g.size.1 as u64).len()) by {
            lemma_file_size(bytes@, pos0, g);
            assert(p2 == cur + 10);
            assert(w == g.size.0 as u64 && p3 == p2 + spec_ser_u64(g.size.0 as u64).len());
            assert(p4 == p3 + 1);
            assert(h == g.size.1 as u64 && p5 == p4 + spec_ser_u64(g.size.1 as u64).len());
        }
    }
    Some((w, h, p5))
}

/// Reads the whole file object: on the encoding of `g` it reads back a
/// file with exactly `g`'s mines, size, clicks and duration.
#[verifier::rlimit(100)]
#[verifier::spinoff_prover]
fn parse_file(bytes: &Vec<u8>, pos: usize) -> (r: Option<(ReplayFile, usize)>)
    ensures
        r matches Some(t) ==> pos <= t.1 <= bytes@.len(),
        forall|g: ReplayFile|
            #[trigger] file_at(bytes@, pos as int, g) ==> (r matches Some(t) && t.0.mines@
                == g.mines@ && t.0.size == g.size && t.0.clicks@ == g.clicks@ && t.0.duration
                == g.duration && t.1 == pos + spec_ser_file(g).len()),
{
    let blen = bytes.len();
    proof {
        assert(bytes@.len() == blen);
    }
    let p1 = match parse_lit(bytes, pos, &lit_mines_head()) {
        Some(p) => p,
        None => {
            proof {
                assert forall|g: ReplayFile| !file_at(bytes@, pos as int, g) by {
                    if file_at(bytes@, pos as int, g) {
                        lemma_file_mines(bytes@, pos as int, g);
                        assert(pos + 10 <= bytes@.len());
                    }
                }
            }
            return None;
        },
    };
    let mines_parsed: (Vec<Position>, usize) = if p1 < blen && bytes[p1] == 123u8 {
        match parse_pos_list(bytes, p1) {
            Some(t) => t,
            None => {
                proof {
                    assert forall|g: ReplayFile| !file_at(bytes@, pos as int, g) by {
                        if file_at(bytes@, pos as int, g) {
                            lemma_file_mines(bytes@, pos as int, g);
                            assert(p1 == pos + 10);
                            if g.mines@.len() == 0 {
                                assert(bytes@[p1 as int] == 93u8);
                                assert(false);
                            } else {
                                assert(pos_list_at(bytes@, p1 as int, g.mines@));
                                assert(false);
                            }
                        }
                    }
                }
                return None;
            },
        }
    } else {
        (Vec::new(), p1)
    };
    let (mines, cur) = mines_parsed;
    proof {
        assert forall|g: ReplayFile|
            file_at(bytes@, pos as int, g) implies (mines@ == g.mines@ && cur == pos + 10
            + spec_ser_pos_list(g.mines@).len()) by {
            lemma_file_mines(bytes@, pos as int, g);
            assert(p1 == pos + 10);
            if g.mines@.len() == 0 {
                assert(bytes@[p1 as int] == 93u8);
                assert(mines@ =~= g.mines@);
            } else {
                assert(bytes@[p1 as int] == 123u8);
                assert((p1 as int) < bytes@.len());
                assert(pos_list_at(bytes@, p1 as int, g.mines@));
            }
        }
    }
    let size_parsed = match parse_file_size(bytes, cur, Ghost(pos as int)) {
        Some(t) => t,
        None => {
            proof {
                assert forall|g: ReplayFile| !file_at(bytes@, pos as int, g) by {
                    if file_at(bytes@, pos as int, g) {
                        assert(file_size_hyp(bytes@, pos as int, cur as int, g));
                        assert(false);
                    }
                }
            }
            return None;
        },
    };
    let (w, h, p5) = size_parsed;
    proof {
        assert forall|g: ReplayFile|
            file_at(bytes@, pos as int, g) implies (w == g.size.0 as u64 && h
            == g.size.1 as u64 && p5 == pos + 21 + spec_ser_pos_list(g.mines@).len()
            + spec_ser_u64(g.size.0 as u64).len() + spec_ser_u64(g.size.1 as u64).len()) by {
            assert(file_size_hyp(bytes@, pos as int, cur as int, g));
        }
    }
    if w > usize::MAX as u64 || h > usize::MAX as u64 {
        proof {
            assert forall|g: ReplayFile| !file_at(bytes@, pos as int, g) by {
                if file_at(bytes@, pos as int, g) {
                    assert(w == g.size.0 as u64 && h == g.size.1 as u64);
                    assert(false);
                }
            }
        }
        return None;
    }
    let rest = match parse_file_rest(bytes, p5, Ghost(pos as int)) {
        Some(t) => t,
        None => {
            proof {
                assert forall|g: ReplayFile| !file_at(bytes@, pos as int, g) by {
                    if file_at(bytes@, pos as int, g) {
                        assert(file_rest_hyp(bytes@, pos as int, p5 as int, g));
                        assert(false);
                    }
                }
            }
            return None;
        },
    };
    proof {
        assert forall|g: ReplayFile|
            file_at(bytes@, pos as int, g) implies (rest.0@ == g.clicks@ && rest.1
            == g.duration && rest.2 == pos + spec_ser_file(g).len()) by {
            assert(file_rest_hyp(bytes@, pos as int, p5 as int, g));
        }
    }
    let (clicks, dur, p9) = rest;
    Some((ReplayFile { mines, size: (w as usize, h as usize), clicks, duration: dur }, p9))
}

impl ReplayFile {
    /// Decodes a replay file from its canonical JSON bytes. Whatever comes
    /// back `Ok` is exactly the file whose canonical encoding the input
    /// was, and it passes every validation rule; on the canonical encoding
    /// of any valid file, decoding succeeds and reproduces that file, so
    /// save-then-load is the identity. Anything else is refused with a
    /// message.
    pub fn from_json(bytes: &Vec<u8>) -> (r: Result<ReplayFile, String>)
        ensures
            r matches Ok(f) ==> bytes@ == spec_ser_file(f) && f.spec_valid(),
            forall|g: ReplayFile|
                (bytes@ == #[trigger] spec_ser_file(g) && g.spec_valid()) ==> (r matches Ok(f)
                    && f.mines@ == g.mines@ && f.size == g.size && f.clicks@ == g.clicks@
                    && f.duration == g.duration),
            forall|g: ReplayFile|
                (bytes@ == #[trigger] spec_ser_file(g) && !g.spec_valid()) ==> r is Err,
    {
        broadcast use vstd::string::to_string_from_display_ensures_for_str;

        let blen = bytes.len();
        proof {
            assert(bytes@.len() == blen);
        }
        let parsed = match parse_file(bytes, 0) {
            Some(t) => t,
            None => {
                proof {
                    assert forall|g: ReplayFile| bytes@ != #[trigger] spec_ser_file(g) by {
                        if bytes@ == spec_ser_file(g) {
                            assert(bytes@.subrange(0, bytes@.len() as int) =~= bytes@);
                            assert(file_at(bytes@, 0, g));
                            assert(false);
                        }
                    }
                }
                return Err("Malformed replay file".to_string());
            },
        };
        let (file, end) = parsed;
        proof {
            assert forall|g: ReplayFile|
                bytes@ == #[trigger] spec_ser_file(g) implies (file.mines@ == g.mines@
                && file.size == g.size && file.clicks@ == g.clicks@ && file.duration
                == g.duration && end == bytes@.len() && file.spec_valid() == g.spec_valid()
                && spec_ser_file(file) == spec_ser_file(g)) by {
                assert(bytes@.subrange(0, bytes@.len() as int) =~= bytes@);
                assert(file_at(bytes@, 0, g));
                assert(spec_ser_file(file) =~= spec_ser_file(g));
                assert(file.spec_has_clicks() == g.spec_has_clicks());
                assert(file.spec_clicks_in_bounds() == g.spec_clicks_in_bounds());
                assert(file.spec_mines_in_bounds() == g.spec_mines_in_bounds());
                assert(file.spec_mines_unique() == g.spec_mines_unique());
                assert(file.spec_no_mine_near_first_click() == g.spec_no_mine_near_first_click());
                if file.spec_has_clicks() {
                    assert(file.spec_duration_consistent() == g.spec_duration_consistent());
                }
            }
        }
        if end != bytes.len() {
            return Err("Malformed replay file".to_string());
        }
        let reencoded = file.to_json();
        if !bytes_eq(&reencoded, bytes) {
            proof {
                assert forall|g: ReplayFile| bytes@ != #[trigger] spec_ser_file(g) by {
                    if bytes@ == spec_ser_file(g) {
                        assert(reencoded@ == spec_ser_file(file));
                        assert(reencoded@ == bytes@);
                        assert(false);
                    }
                }
            }
            return Err("Malformed replay file".to_string());
        }
        match file.validate() {
            Some(err) => Err(err),
            None => Ok(file),
        }
    }
}

} // verus!
