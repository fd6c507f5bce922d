//! The bytes of a Windows registry string: UTF-16 code units, little-endian,
//! ending with a NUL unit.
use vstd::prelude::*;

use crate::text::chars_of;

verus! {

/// The UTF-16 code units of one character (`char::encode_utf16`): the code
/// point itself below `0x10000`, otherwise a high and a low surrogate.
pub open spec fn utf16_units(c: char) -> Seq<u16> {
    let v: u32 = c as u32;
    if v < 0x10000 {
        seq![v as u16]
    } else {
        let w = (v - 0x10000) as u32;
        seq![(0xD800 + w / 0x400) as u16, (0xDC00 + w % 0x400) as u16]
    }
}

/// The UTF-16 code units of a text (`str::encode_utf16`).
pub open spec fn utf16(s: Seq<char>) -> Seq<u16>
    decreases s.len(),
{
    if s.len() == 0 {
        Seq::<u16>::empty()
    } else {
        utf16(s.drop_last()) + utf16_units(s.last())
    }
}

/// Code units as little-endian bytes (`u16::to_le_bytes` of each).
pub open spec fn le_bytes(units: Seq<u16>) -> Seq<u8>
    decreases units.len(),
{
    if units.len() == 0 {
        Seq::<u8>::empty()
    } else {
        le_bytes(units.drop_last()) + seq![
            (units.last() % 256) as u8,
            (units.last() / 256) as u8,
        ]
    }
}

/// The registry bytes of a text: its UTF-16 units and a terminating NUL unit,
/// little-endian.
pub open spec fn win_bytes(s: Seq<char>) -> Seq<u8> {
    le_bytes(utf16(s).push(0u16))
}

/// Appends the little-endian bytes of one code unit.
fn push_unit(out: &mut Vec<u8>, u: u16, units: Ghost<Seq<u16>>)
    requires
        old(out)@ == le_bytes(units@),
    ensures
        final(out)@ == le_bytes(units@.push(u)),
{
    out.push((u % 256) as u8);
    out.push((u / 256) as u8);
    assert(units@.push(u).drop_last() =~= units@);
}

/// `s` as a registry string: UTF-16 code units followed by a NUL unit, each
/// as two little-endian bytes.
pub fn string_to_win_bytes(s: &str) -> (r: Vec<u8>)
    ensures
        r@ == win_bytes(s@),
{
    let cs = chars_of(s);
    let mut out: Vec<u8> = Vec::new();
    let mut i: usize = 0;
    while i < cs.len()
        invariant
            i <= cs.len(),
            out@ == le_bytes(utf16(cs@.take(i as int))),
        decreases cs.len() - i,
    {
        let ghost before = utf16(cs@.take(i as int));
        let c = cs[i];
        let v: u32 = c as u32;
        assert(cs@.take(i + 1).drop_last() =~= cs@.take(i as int));
        assert(cs@.take(i + 1).last() == c);
        if v < 0x10000 {
            push_unit(&mut out, v as u16, Ghost(before));
            assert(before.push(v as u16) =~= before + utf16_units(c));
        } else {
            let w: u32 = v - 0x10000;
            let hi: u16 = (0xD800 + w / 0x400) as u16;
            let lo: u16 = (0xDC00 + w % 0x400) as u16;
            push_unit(&mut out, hi, Ghost(before));
            push_unit(&mut out, lo, Ghost(before.push(hi)));
            assert(before.push(hi).push(lo) =~= before + utf16_units(c));
        }
        i = i + 1;
    }
    assert(cs@.take(cs.len() as int) =~= cs@);
    push_unit(&mut out, 0u16, Ghost(utf16(cs@)));
    out
}

/// The code unit that two little-endian bytes encode.
pub open spec fn unit_at(b: Seq<u8>, i: int) -> int {
    b[i] as int + 256 * b[i + 1] as int
}

/// Each character decodes back from its registry bytes: a character below
/// `0x10000` is the single unit its two bytes encode, any other is the
/// surrogate pair its four bytes encode; a NUL unit follows.
pub proof fn lemma_win_bytes_decode_char(c: char)
    ensures
        (c as u32) < 0x10000 ==> {
            let b = win_bytes(seq![c]);
            &&& b.len() == 4
            &&& unit_at(b, 0) == c as int
            &&& unit_at(b, 2) == 0
        },
        (c as u32) >= 0x10000 ==> {
            let b = win_bytes(seq![c]);
            &&& b.len() == 6
            &&& 0xD800 <= unit_at(b, 0) < 0xDC00
            &&& 0xDC00 <= unit_at(b, 2) < 0xE000
            &&& 0x10000 + (unit_at(b, 0) - 0xD800) * 0x400 + (unit_at(b, 2) - 0xDC00) == c as int
            &&& unit_at(b, 4) == 0
        },
{
    let s = seq![c];
    assert(s.drop_last() =~= Seq::<char>::empty());
    assert(s.last() == c);
    let us = utf16(s);
    assert(utf16(Seq::<char>::empty()) =~= Seq::<u16>::empty());
    assert(Seq::<u16>::empty() + utf16_units(c) =~= utf16_units(c));
    assert(us =~= utf16_units(c));
    let v = c as u32;
    let all = us.push(0u16);
    reveal_with_fuel(le_bytes, 4);
    if v < 0x10000 {
        assert(all =~= seq![v as u16, 0u16]);
        assert(all.drop_last() =~= seq![v as u16]);
        assert(all.drop_last().drop_last() =~= Seq::<u16>::empty());
        let u = v as u16;
        assert((u % 256) as int + 256 * (u / 256) as int == u as int);
    } else {
        let w = (v - 0x10000) as u32;
        let hi = (0xD800 + w / 0x400) as u16;
        let lo = (0xDC00 + w % 0x400) as u16;
        assert(all =~= seq![hi, lo, 0u16]);
        assert(all.drop_last() =~= seq![hi, lo]);
        assert(all.drop_last().drop_last() =~= seq![hi]);
        assert(all.drop_last().drop_last().drop_last() =~= Seq::<u16>::empty());
        assert((hi % 256) as int + 256 * (hi / 256) as int == hi as int);
        assert((lo % 256) as int + 256 * (lo / 256) as int == lo as int);
        assert((w / 0x400) * 0x400 + w % 0x400 == w) by (nonlinear_arith);
    }
}

/// The registry bytes of a text extended by a character: the bytes of the
/// text without its NUL unit, then those of the character.
pub proof fn lemma_win_bytes_push(s: Seq<char>, c: char)
    ensures
        win_bytes(s.push(c)) == win_bytes(s).subrange(0, win_bytes(s).len() - 2) + win_bytes(
            seq![c],
        ),
{
    assert(s.push(c).drop_last() =~= s);
    let single = seq![c];
    assert(single.drop_last() =~= Seq::<char>::empty());
    assert(utf16(Seq::<char>::empty()) =~= Seq::<u16>::empty());
    assert(Seq::<u16>::empty() + utf16_units(c) =~= utf16_units(c));
    assert(utf16(single) =~= utf16_units(c));
    lemma_le_bytes_append(utf16(s), utf16_units(c).push(0u16));
    assert(utf16(s.push(c)).push(0u16) =~= utf16(s) + utf16_units(c).push(0u16));
    lemma_le_bytes_append(utf16(s), seq![0u16]);
    assert(utf16(s).push(0u16) =~= utf16(s) + seq![0u16]);
    reveal_with_fuel(le_bytes, 2);
    assert(seq![0u16].drop_last() =~= Seq::<u16>::empty());
    let zero = le_bytes(seq![0u16]);
    assert(zero.len() == 2);
    assert((le_bytes(utf16(s)) + zero).subrange(0, le_bytes(utf16(s)).len() as int) =~= le_bytes(
        utf16(s),
    ));
}

proof fn lemma_le_bytes_append(a: Seq<u16>, b: Seq<u16>)
    ensures
        le_bytes(a + b) == le_bytes(a) + le_bytes(b),
    decreases b.len(),
{
    if b.len() == 0 {
        assert(a + b =~= a);
        assert(le_bytes(a) + le_bytes(b) =~= le_bytes(a));
    } else {
        lemma_le_bytes_append(a, b.drop_last());
        assert((a + b).drop_last() =~= a + b.drop_last());
        assert((a + b).last() == b.last());
        assert(le_bytes(a) + le_bytes(b) =~= le_bytes(a) + le_bytes(b.drop_last()) + seq![
            (b.last() % 256) as u8,
            (b.last() / 256) as u8,
        ]);
    }
}

} // verus!
