//! UTF-16, as Windows hands text out and takes it in.
use crate::text::chars_of;
use vstd::prelude::*;

verus! {

pub open spec fn is_high(u: u16) -> bool {
    0xd800 <= u <= 0xdbff
}

pub open spec fn is_low(u: u16) -> bool {
    0xdc00 <= u <= 0xdfff
}

/// The character that a surrogate pair stands for.
pub open spec fn pair_char(hi: u16, lo: u16) -> char {
    (0x10000 + (hi - 0xd800) * 0x400 + (lo - 0xdc00)) as char
}

/// The text of UTF-16 units. A surrogate without its partner becomes the
/// replacement character.
pub open spec fn decoded(u: Seq<u16>) -> Seq<char>
    decreases u.len(),
{
    if u.len() == 0 {
        Seq::empty()
    } else if u.len() >= 2 && is_high(u[0]) && is_low(u[1]) {
        seq![pair_char(u[0], u[1])] + decoded(u.skip(2))
    } else if is_high(u[0]) || is_low(u[0]) {
        seq!['\u{fffd}'] + decoded(u.skip(1))
    } else {
        seq![u[0] as char] + decoded(u.skip(1))
    }
}

/// The units of one character.
pub open spec fn char_units(c: char) -> Seq<u16> {
    let n = c as int;
    if n < 0x10000 {
        seq![n as u16]
    } else {
        seq![(0xd800 + (n - 0x10000) / 0x400) as u16, (0xdc00 + (n - 0x10000) % 0x400) as u16]
    }
}

/// The UTF-16 units of a text.
pub open spec fn encoded(s: Seq<char>) -> Seq<u16>
    decreases s.len(),
{
    if s.len() == 0 {
        Seq::empty()
    } else {
        char_units(s[0]) + encoded(s.skip(1))
    }
}

/// A character is a Unicode scalar value.
pub proof fn lemma_char_range(c: char)
    ensures
        0 <= c as int <= 0x10ffff,
        !(0xd800 <= c as int <= 0xdfff),
        c as u32 == c as int,
        (c as int) as char == c,
{
}

/// Decoding gives back what was encoded.
pub proof fn law_utf16_roundtrip(s: Seq<char>)
    ensures
        decoded(encoded(s)) == s,
    decreases s.len(),
{
    if s.len() > 0 {
        law_utf16_roundtrip(s.skip(1));
        let c = s[0];
        let n = c as int;
        let rest = encoded(s.skip(1));
        let u = encoded(s);
        lemma_char_range(c);
        if n < 0x10000 {
            assert(u.skip(1) =~= rest);
            assert(u[0] == n as u16);
            assert((u[0] as char) == c);
        } else {
            assert(u.skip(2) =~= rest);
            let hi = u[0];
            let lo = u[1];
            assert(hi == 0xd800 + (n - 0x10000) / 0x400);
            assert(lo == 0xdc00 + (n - 0x10000) % 0x400);
            assert(0x10000 + (hi - 0xd800) * 0x400 + (lo - 0xdc00) == n);
        }
        assert(seq![c] + s.skip(1) =~= s);
    } else {
        assert(decoded(encoded(s)) =~= s);
    }
}

/// A text without a zero character has no zero unit.
pub proof fn lemma_encoded_no_zero(s: Seq<char>)
    requires
        forall|i: int| 0 <= i < s.len() ==> #[trigger] s[i] != '\0',
    ensures
        forall|i: int| 0 <= i < encoded(s).len() ==> #[trigger] encoded(s)[i] != 0,
    decreases s.len(),
{
    if s.len() > 0 {
        let t = s.skip(1);
        assert forall|i: int| 0 <= i < t.len() implies #[trigger] t[i] != '\0' by {
            assert(s[i + 1] != '\0');
        }
        lemma_encoded_no_zero(t);
        let n = s[0] as int;
        lemma_char_range(s[0]);
        assert(s[0] != '\0');
        let a = char_units(s[0]);
        let b = encoded(t);
        assert forall|i: int| 0 <= i < (a + b).len() implies #[trigger] (a + b)[i] != 0 by {
            if i >= a.len() {
                assert((a + b)[i] == b[i - a.len()]);
            }
        }
    }
}

/// The text of the units `u[from..to]`.
pub fn from_utf16_lossy(u: &[u16], from: usize, to: usize) -> (r: String)
    requires
        from <= to <= u@.len(),
    ensures
        r@ == decoded(u@.subrange(from as int, to as int)),
{
    let mut out: String = String::new();
    let mut i: usize = from;
    let ghost all = u@.subrange(from as int, to as int);
    assert(out@ + decoded(u@.subrange(i as int, to as int)) =~= decoded(all));
    while i < to
        invariant
            from <= i <= to <= u@.len(),
            all == u@.subrange(from as int, to as int),
            out@ + decoded(u@.subrange(i as int, to as int)) == decoded(all),
        decreases to - i,
    {
        let ghost rest = u@.subrange(i as int, to as int);
        let ghost before = out@;
        let a: u16 = u[i];
        if to - i >= 2 && (0xd800 <= a && a <= 0xdbff) && (0xdc00 <= u[i + 1] && u[i + 1] <= 0xdfff) {
            let b: u16 = u[i + 1];
            let n: u32 = 0x10000 + (a as u32 - 0xd800) * 0x400 + (b as u32 - 0xdc00);
            match char::from_u32(n) {
                Some(c) => {
                    out.push(c);
                    assert(c == pair_char(a, b));
                    assert(rest.skip(2) =~= u@.subrange(i + 2, to as int));
                    assert(before + (seq![c] + decoded(rest.skip(2))) =~= out@ + decoded(
                        rest.skip(2),
                    ));
                },
                None => {},
            }
            i += 2;
        } else if 0xd800 <= a && a <= 0xdfff {
            out.push('\u{fffd}');
            assert(rest.skip(1) =~= u@.subrange(i + 1, to as int));
            assert(before + (seq!['\u{fffd}'] + decoded(rest.skip(1))) =~= out@ + decoded(
                rest.skip(1),
            ));
            i += 1;
        } else {
            match char::from_u32(a as u32) {
                Some(c) => {
                    out.push(c);
                    assert(c == a as char);
                    assert(rest.skip(1) =~= u@.subrange(i + 1, to as int));
                    assert(before + (seq![c] + decoded(rest.skip(1))) =~= out@ + decoded(
                        rest.skip(1),
                    ));
                },
                None => {},
            }
            i += 1;
        }
    }
    assert(u@.subrange(i as int, to as int) =~= Seq::empty());
    assert(out@ + decoded(Seq::empty()) =~= out@);
    out
}

/// The UTF-16 units of a text.
pub fn encode_utf16(s: &str) -> (r: Vec<u16>)
    ensures
        r@ == encoded(s@),
{
    let cs: Vec<char> = chars_of(s);
    let mut out: Vec<u16> = Vec::new();
    let mut i: usize = 0;
    assert(cs@.skip(0) =~= s@);
    assert(out@ + encoded(cs@.skip(0)) =~= encoded(s@));
    while i < cs.len()
        invariant
            i <= cs@.len(),
            cs@ == s@,
            out@ + encoded(cs@.skip(i as int)) == encoded(s@),
        decreases cs@.len() - i,
    {
        let c: char = cs[i];
        let n: u32 = c as u32;
        let ghost before = out@;
        let ghost tail = cs@.skip(i as int);
        proof {
            lemma_char_range(c);
            assert(tail.skip(1) =~= cs@.skip(i + 1));
        }
        if n < 0x10000 {
            out.push(n as u16);
            assert(out@ =~= before + char_units(c));
        } else {
            let m: u32 = n - 0x10000;
            out.push((0xd800 + m / 0x400) as u16);
            out.push((0xdc00 + m % 0x400) as u16);
            assert(out@ =~= before + char_units(c));
        }
        assert(before + (char_units(c) + encoded(tail.skip(1))) =~= out@ + encoded(tail.skip(1)));
        i += 1;
    }
    assert(cs@.skip(i as int) =~= Seq::empty());
    assert(out@ + encoded(Seq::empty()) =~= out@);
    out
}

/// The 16-bit units of little-endian bytes; an odd byte at the end is left out.
pub open spec fn units(bytes: Seq<u8>) -> Seq<u16> {
    Seq::new(
        bytes.len() / 2,
        |i: int| (bytes[2 * i] as int + 256 * (bytes[2 * i + 1] as int)) as u16,
    )
}

pub fn units_of(bytes: &[u8]) -> (r: Vec<u16>)
    ensures
        r@ == units(bytes@),
{
    let len: usize = bytes.len();
    let n: usize = len / 2;
    let mut out: Vec<u16> = Vec::new();
    let mut i: usize = 0;
    while i < n
        invariant
            len == bytes@.len(),
            i <= n == len / 2,
            out@.len() == i,
            forall|k: int| 0 <= k < i ==> #[trigger] out@[k] == units(bytes@)[k],
        decreases n - i,
    {
        out.push(bytes[2 * i] as u16 + 256 * (bytes[2 * i + 1] as u16));
        i += 1;
    }
    assert(out@ =~= units(bytes@));
    out
}

/// A character of the basic plane is one unit, its own number. Any other is a pair
/// of surrogates, of which the first carries the ten upper bits of its distance
/// from the basic plane and the second the ten lower ones.
pub proof fn law_characters_become_units(c: char)
    ensures
        (c as u32) < 0x1_0000 ==> char_units(c).len() == 1 && char_units(c)[0] == c as u32,
        (c as u32) >= 0x1_0000 ==> {
            let u = char_units(c);
            &&& u.len() == 2
            &&& 0xd800 <= u[0] < 0xdc00
            &&& 0xdc00 <= u[1] < 0xe000
            &&& 0x1_0000 + 0x400 * (u[0] - 0xd800) + (u[1] - 0xdc00) == c as u32
        },
{
}

/// A unit that is no surrogate is the character with its number; a surrogate
/// without a partner is replaced by the replacement character.
pub proof fn law_units_become_characters(u: u16, rest: Seq<u16>)
    requires
        rest.len() > 0 ==> !(0xdc00 <= rest[0] < 0xe000),
    ensures
        !(0xd800 <= u < 0xe000) ==> decoded(seq![u] + rest) == seq![u as char] + decoded(rest),
        0xd800 <= u < 0xe000 ==> decoded(seq![u] + rest) == seq!['\u{fffd}'] + decoded(rest),
{
    let s = seq![u] + rest;
    assert(s.skip(1) =~= rest);
    assert(s[0] == u);
    if rest.len() > 0 {
        assert(s[1] == rest[0]);
    }
}

/// Bytes are taken two by two, the low one first; an odd one at the end is left
/// out.
pub proof fn law_bytes_are_taken_in_pairs(bytes: Seq<u8>, i: int)
    requires
        0 <= 2 * i,
        2 * i + 1 < bytes.len(),
    ensures
        units(bytes).len() == bytes.len() / 2,
        units(bytes)[i] == bytes[2 * i] + 0x100 * bytes[2 * i + 1],
{
    assert(2 * i + 1 < bytes.len() ==> i < bytes.len() / 2);
}

} // verus!
