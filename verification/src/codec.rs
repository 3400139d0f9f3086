//! Little-endian numbers and length-prefixed strings.
use crate::text::from_utf8;
use vstd::prelude::*;
use vstd::utf8::{decode_utf8, encode_utf8, encode_utf8_decode_utf8, encode_utf8_valid_utf8, valid_utf8};

verus! {

// ----------------------------------------------------------------- numbers --
/// The low `w` bytes of `n`, least significant first.
pub open spec fn le_bytes(n: nat, w: nat) -> Seq<u8>
    decreases w,
{
    if w == 0 {
        Seq::empty()
    } else {
        seq![(n % 256) as u8] + le_bytes(n / 256, (w - 1) as nat)
    }
}

/// The number whose bytes are `s`, least significant first.
pub open spec fn le_value(s: Seq<u8>) -> nat
    decreases s.len(),
{
    if s.len() == 0 {
        0
    } else {
        s[0] as nat + 256 * le_value(s.skip(1))
    }
}

/// `256` to the power of `w`.
pub open spec fn pow256(w: nat) -> nat
    decreases w,
{
    if w == 0 {
        1
    } else {
        256 * pow256((w - 1) as nat)
    }
}

/// The two's complement bits of `x`.
pub open spec fn i64_bits(x: i64) -> nat {
    if x >= 0 {
        x as nat
    } else {
        (x + 0x1_0000_0000_0000_0000) as nat
    }
}

/// The number with the two's complement bits `n`.
pub open spec fn i64_of_bits(n: nat) -> i64 {
    if n <= i64::MAX {
        n as i64
    } else {
        (n - 0x1_0000_0000_0000_0000) as i64
    }
}

pub proof fn lemma_le_len(n: nat, w: nat)
    ensures
        le_bytes(n, w).len() == w,
    decreases w,
{
    if w > 0 {
        lemma_le_len(n / 256, (w - 1) as nat);
    }
}

/// Reading back what was written gives the number, where it fits.
pub proof fn lemma_le_roundtrip(n: nat, w: nat)
    requires
        n < pow256(w),
    ensures
        le_value(le_bytes(n, w)) == n,
    decreases w,
{
    if w > 0 {
        let v = (w - 1) as nat;
        assert(n / 256 < pow256(v)) by (nonlinear_arith)
            requires
                n < 256 * pow256(v),
        ;
        lemma_le_roundtrip(n / 256, v);
        let s = le_bytes(n, w);
        assert(s.skip(1) =~= le_bytes(n / 256, v));
    }
}

pub proof fn lemma_le_bound(s: Seq<u8>)
    ensures
        le_value(s) < pow256(s.len()),
    decreases s.len(),
{
    if s.len() > 0 {
        lemma_le_bound(s.skip(1));
        assert(s.skip(1).len() == (s.len() - 1) as nat);
    }
}

/// Two, four or eight bytes are the number whose digits to the base 256 they
/// are, the least significant first.
pub proof fn lemma_number_of_bytes(s: Seq<u8>)
    ensures
        s.len() == 2 ==> le_value(s) == s[0] + 0x100 * s[1],
        s.len() == 4 ==> le_value(s) == s[0] + 0x100 * s[1] + 0x1_0000 * s[2] + 0x100_0000 * s[3],
        s.len() == 8 ==> le_value(s) == s[0] + 0x100 * s[1] + 0x1_0000 * s[2] + 0x100_0000 * s[3]
            + 0x1_0000_0000 * s[4] + 0x100_0000_0000 * s[5] + 0x1_0000_0000_0000 * s[6]
            + 0x100_0000_0000_0000 * s[7],
{
    if s.len() == 2 || s.len() == 4 || s.len() == 8 {
        lemma_le_step(s, 0);
        lemma_le_step(s, 1);
        if s.len() > 2 {
            lemma_le_step(s, 2);
            lemma_le_step(s, 3);
        }
        if s.len() > 4 {
            lemma_le_step(s, 4);
            lemma_le_step(s, 5);
            lemma_le_step(s, 6);
            lemma_le_step(s, 7);
        }
        assert(s.skip(0) =~= s);
        assert(s.skip(s.len() as int) =~= Seq::<u8>::empty());
        assert(le_value(s.skip(s.len() as int)) == 0);
    }
}

proof fn lemma_le_step(s: Seq<u8>, i: int)
    requires
        0 <= i < s.len(),
    ensures
        le_value(s.skip(i)) == s[i] + 256 * le_value(s.skip(i + 1)),
{
    assert(s.skip(i).skip(1) =~= s.skip(i + 1));
}

pub proof fn lemma_pow256()
    ensures
        pow256(1) == 0x100,
        pow256(2) == 0x1_0000,
        pow256(4) == 0x1_0000_0000,
        pow256(8) == 0x1_0000_0000_0000_0000,
        forall|w: nat| #![trigger pow256(w)] w <= 8 ==> pow256(w) <= 0x1_0000_0000_0000_0000,
{
    reveal_with_fuel(pow256, 9);
    assert forall|w: nat| #![trigger pow256(w)] w <= 8 implies pow256(w)
        <= 0x1_0000_0000_0000_0000 by {
        assert(w == 0 || w == 1 || w == 2 || w == 3 || w == 4 || w == 5 || w == 6 || w == 7 || w
            == 8);
    }
}

/// Appends the low `w` bytes of `n`.
pub fn put_le(buf: &mut Vec<u8>, n: u64, w: usize)
    ensures
        final(buf)@ == old(buf)@ + le_bytes(n as nat, w as nat),
{
    let ghost start = buf@;
    let mut left: u64 = n;
    let mut k: usize = 0;
    assert(start + le_bytes(n as nat, w as nat) =~= start + le_bytes(n as nat, w as nat));
    while k < w
        invariant
            k <= w,
            start + le_bytes(n as nat, w as nat) == buf@ + le_bytes(left as nat, (w - k) as nat),
        decreases w - k,
    {
        let ghost tail = le_bytes((left / 256) as nat, (w - k - 1) as nat);
        let b: u8 = (left % 256) as u8;
        assert(buf@ + (seq![b] + tail) =~= buf@.push(b) + tail);
        buf.push(b);
        left = left / 256;
        k += 1;
    }
    assert(buf@ + le_bytes(left as nat, 0) =~= buf@);
}

/// The number whose bytes are `buf[from..to]`.
pub fn get_le(buf: &[u8], from: usize, to: usize) -> (r: u64)
    requires
        from <= to <= buf@.len(),
        to - from <= 8,
    ensures
        r == le_value(buf@.subrange(from as int, to as int)),
        r < pow256((to - from) as nat),
{
    let ghost s = buf@.subrange(from as int, to as int);
    let mut v: u64 = 0;
    let mut i: usize = to;
    assert(s.skip(s.len() as int) =~= Seq::empty());
    while i > from
        invariant
            from <= i <= to <= buf@.len(),
            to - from <= 8,
            s == buf@.subrange(from as int, to as int),
            v == le_value(s.skip(i - from)),
            v < pow256((to - i) as nat),
        decreases i,
    {
        i -= 1;
        let ghost rest = s.skip(i - from);
        proof {
            assert(rest.skip(1) =~= s.skip(i + 1 - from));
            assert(rest[0] == buf@[i as int]);
            lemma_le_bound(rest);
            assert(rest.len() == to - i);
            lemma_pow256();
        }
        v = buf[i] as u64 + 256 * v;
    }
    assert(s.skip(0) =~= s);
    v
}

/// The two's complement bits of `x`.
pub fn bits_of_i64(x: i64) -> (r: u64)
    ensures
        r == i64_bits(x),
{
    if x >= 0 {
        x as u64
    } else {
        u64::MAX - (-(x + 1)) as u64
    }
}

/// The number with the two's complement bits `n`.
pub fn i64_from_bits(n: u64) -> (r: i64)
    ensures
        r == i64_of_bits(n as nat),
{
    if n <= i64::MAX as u64 {
        n as i64
    } else {
        -((u64::MAX - n) as i64) - 1
    }
}

pub proof fn lemma_assoc(a: Seq<u8>, b: Seq<u8>, c: Seq<u8>)
    ensures
        (a + b) + c == a + (b + c),
{
    assert((a + b) + c =~= a + (b + c));
}

// ----------------------------------------------------------------- strings --
/// A string as its UTF-8 length in four bytes and its UTF-8 bytes.
pub open spec fn str_bytes(s: Seq<char>) -> Seq<u8> {
    le_bytes(encode_utf8(s).len(), 4) + encode_utf8(s)
}

pub fn put_str(buf: &mut Vec<u8>, s: &str)
    ensures
        final(buf)@ == old(buf)@ + str_bytes(s@),
{
    let bytes: &[u8] = s.as_bytes();
    let ghost start = buf@;
    put_le(buf, bytes.len() as u64, 4);
    put_slice(buf, bytes);
    assert(buf@ =~= start + str_bytes(s@));
}

pub fn put_slice(buf: &mut Vec<u8>, bytes: &[u8])
    ensures
        final(buf)@ == old(buf)@ + bytes@,
{
    let ghost start = buf@;
    let mut i: usize = 0;
    while i < bytes.len()
        invariant
            i <= bytes@.len(),
            buf@ == start + bytes@.take(i as int),
        decreases bytes@.len() - i,
    {
        buf.push(bytes[i]);
        i += 1;
        assert(bytes@.take(i as int) =~= bytes@.take(i - 1).push(bytes@[i - 1]));
    }
    assert(bytes@.take(i as int) =~= bytes@);
}

// ----------------------------------------------------------------- reading --
/// A number of `w` bytes at the start of `s`, and what follows it.
pub open spec fn take_le(s: Seq<u8>, w: nat) -> Option<(nat, Seq<u8>)> {
    if s.len() < w {
        None
    } else {
        Some((le_value(s.take(w as int)), s.skip(w as int)))
    }
}

/// A string at the start of `s`, and what follows it.
pub open spec fn take_str(s: Seq<u8>) -> Option<(Seq<char>, Seq<u8>)> {
    match take_le(s, 4) {
        None => None,
        Some((n, rest)) => if rest.len() < n || !valid_utf8(rest.take(n as int)) {
            None
        } else {
            Some((decode_utf8(rest.take(n as int)), rest.skip(n as int)))
        },
    }
}

/// A number that was written in `w` bytes is read back.
pub proof fn lemma_take_le(n: nat, w: nat, rest: Seq<u8>)
    requires
        n < pow256(w),
    ensures
        take_le(le_bytes(n, w) + rest, w) == Some((n, rest)),
{
    lemma_le_len(n, w);
    lemma_le_roundtrip(n, w);
    let all = le_bytes(n, w) + rest;
    assert(all.take(w as int) =~= le_bytes(n, w));
    assert(all.skip(w as int) =~= rest);
}

/// A string that was written is read back, where its length fits.
pub proof fn lemma_take_str(s: Seq<char>, rest: Seq<u8>)
    requires
        encode_utf8(s).len() < 0x1_0000_0000,
    ensures
        take_str(str_bytes(s) + rest) == Some((s, rest)),
{
    let b = encode_utf8(s);
    lemma_pow256();
    lemma_take_le(b.len(), 4, b + rest);
    assert(str_bytes(s) + rest =~= le_bytes(b.len(), 4) + (b + rest));
    assert((b + rest).take(b.len() as int) =~= b);
    assert((b + rest).skip(b.len() as int) =~= rest);
    encode_utf8_valid_utf8(s);
    encode_utf8_decode_utf8(s);
}

/// A position in a byte buffer.
pub struct Reader<'a> {
    pub buf: &'a [u8],
    pub pos: usize,
}

impl<'a> Reader<'a> {
    pub open spec fn wf(&self) -> bool {
        self.pos <= self.buf@.len()
    }

    /// What has not been read.
    pub open spec fn rest(&self) -> Seq<u8> {
        self.buf@.skip(self.pos as int)
    }

    /// Reads a number of `w` bytes.
    pub fn number(&mut self, w: usize) -> (r: Option<u64>)
        requires
            old(self).wf(),
            w <= 8,
        ensures
            final(self).wf(),
            final(self).buf@ == old(self).buf@,
            match r {
                Some(n) => take_le(old(self).rest(), w as nat) == Some(
                    (n as nat, final(self).rest()),
                ) && n < pow256(w as nat),
                None => take_le(old(self).rest(), w as nat) is None,
            },
    {
        let total: usize = self.buf.len();
        if w > total - self.pos {
            return None;
        }
        let from: usize = self.pos;
        let n: u64 = get_le(self.buf, from, from + w);
        let ghost s = self.rest();
        self.pos = from + w;
        assert(s.take(w as int) =~= self.buf@.subrange(from as int, from + w));
        assert(s.skip(w as int) =~= self.rest());
        Some(n)
    }

    /// Reads a string.
    pub fn str(&mut self) -> (r: Option<String>)
        requires
            old(self).wf(),
        ensures
            final(self).wf(),
            final(self).buf@ == old(self).buf@,
            match r {
                Some(t) => take_str(old(self).rest()) == Some((t@, final(self).rest())),
                None => take_str(old(self).rest()) is None,
            },
    {
        let n: u64 = match self.number(4) {
            Some(n) => n,
            None => return None,
        };
        proof {
            lemma_pow256();
        }
        let total: usize = self.buf.len();
        if n > (total - self.pos) as u64 {
            return None;
        }
        let from: usize = self.pos;
        let to: usize = from + n as usize;
        let bytes: &[u8] = vstd::slice::slice_subrange(self.buf, from, to);
        let ghost s = self.rest();
        assert(s.take(n as int) =~= bytes@);
        match from_utf8(bytes) {
            Some(t) => {
                self.pos = to;
                assert(s.skip(n as int) =~= self.rest());
                Some(t)
            },
            None => None,
        }
    }
}

/// A number of one, two, four or eight bytes is written with the least significant
/// byte first.
pub proof fn law_numbers_are_little_endian(n: nat)
    ensures
        le_bytes(n, 1).len() == 1,
        le_bytes(n, 2).len() == 2,
        le_bytes(n, 4).len() == 4,
        le_bytes(n, 8).len() == 8,
        le_bytes(n, 1)[0] == n % 0x100,
        n < 0x1_0000 ==> le_bytes(n, 2)[0] + 0x100 * le_bytes(n, 2)[1] == n,
        n < 0x1_0000_0000 ==> ({
            let s = le_bytes(n, 4);
            s[0] + 0x100 * s[1] + 0x1_0000 * s[2] + 0x100_0000 * s[3] == n
        }),
        n < 0x1_0000_0000_0000_0000 ==> ({
            let s = le_bytes(n, 8);
            s[0] + 0x100 * s[1] + 0x1_0000 * s[2] + 0x100_0000 * s[3] + 0x1_0000_0000 * s[4]
                + 0x100_0000_0000 * s[5] + 0x1_0000_0000_0000 * s[6] + 0x100_0000_0000_0000 * s[7]
                == n
        }),
{
    lemma_le_len(n, 1);
    lemma_le_len(n, 2);
    lemma_le_len(n, 4);
    lemma_le_len(n, 8);
    lemma_pow256();
    if n < 0x1_0000 {
        lemma_le_roundtrip(n, 2);
        lemma_number_of_bytes(le_bytes(n, 2));
    }
    if n < 0x1_0000_0000 {
        lemma_le_roundtrip(n, 4);
        lemma_number_of_bytes(le_bytes(n, 4));
    }
    if n < 0x1_0000_0000_0000_0000 {
        lemma_le_roundtrip(n, 8);
        lemma_number_of_bytes(le_bytes(n, 8));
    }
}

/// A signed number is written as its two's complement: one below zero counts back
/// from the largest.
pub proof fn law_signed_numbers_are_twos_complement(x: i64)
    ensures
        x >= 0 ==> i64_bits(x) == x,
        x < 0 ==> i64_bits(x) == x + 0x1_0000_0000_0000_0000,
        i64_of_bits(i64_bits(x)) == x,
{
}

/// A text is written as the number of its bytes in UTF-8, in four bytes, and the
/// bytes themselves; reading gives it back, whatever follows.
pub proof fn law_text_is_read_back(s: Seq<char>, rest: Seq<u8>)
    requires
        encode_utf8(s).len() < 0x1_0000_0000,
    ensures
        str_bytes(s).len() == 4 + encode_utf8(s).len(),
        str_bytes(s).skip(4) == encode_utf8(s),
        take_str(str_bytes(s) + rest) == Some((s, rest)),
{
    let e = encode_utf8(s);
    let all = str_bytes(s) + rest;
    lemma_le_len(e.len(), 4);
    lemma_pow256();
    lemma_le_roundtrip(e.len(), 4);
    assert(str_bytes(s).skip(4) =~= e);
    assert(all.take(4) =~= le_bytes(e.len(), 4));
    assert(all.skip(4).take(e.len() as int) =~= e);
    assert(all.skip(4).skip(e.len() as int) =~= rest);
    encode_utf8_valid_utf8(s);
    encode_utf8_decode_utf8(s);
}

} // verus!
