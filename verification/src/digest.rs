//! BLAKE3 content hashes.
use vstd::prelude::*;

verus! {

/// The BLAKE3 hash of a byte sequence, as `blake3::hash` computes it.
pub uninterp spec fn blake3_digest(data: Seq<u8>) -> Seq<u8>;

/// `blake3::Hasher`.
#[verifier::external_type_specification]
#[verifier::external_body]
pub struct ExHasher(blake3::Hasher);

/// The bytes a hasher has been fed so far, in order.
pub uninterp spec fn hasher_input(h: blake3::Hasher) -> Seq<u8>;

/// `blake3::Hasher::new`: a hasher that has been fed nothing.
#[verifier::external_body]
fn hasher_new() -> (r: blake3::Hasher)
    ensures
        hasher_input(r) == Seq::<u8>::empty(),
{
    blake3::Hasher::new()
}

/// `blake3::Hasher::update`: appends `data` to what was fed before.
#[verifier::external_body]
fn hasher_update(h: &mut blake3::Hasher, data: &[u8])
    ensures
        hasher_input(*final(h)) == hasher_input(*old(h)) + data@,
{
    h.update(data);
}

/// `blake3::Hasher::finalize`: the 32-byte hash of everything fed so far, the
/// one that `blake3::hash` computes of the same bytes in one go.
#[verifier::external_body]
fn hasher_finalize(h: &blake3::Hasher) -> (r: Vec<u8>)
    ensures
        r@ == blake3_digest(hasher_input(*h)),
        r@.len() == 32,
{
    h.finalize().as_bytes().to_vec()
}

/// `blake3::hash`: the 32-byte hash of `data`.
#[verifier::external_body]
pub(crate) fn blake3_hash(data: &[u8]) -> (r: Vec<u8>)
    ensures
        r@ == blake3_digest(data@),
        r@.len() == 32,
{
    blake3::hash(data).as_bytes().to_vec()
}

/// Hashes content that arrives piece by piece.
pub struct ContentHasher {
    inner: blake3::Hasher,
}

impl ContentHasher {
    /// The content so far.
    pub closed spec fn fed(&self) -> Seq<u8> {
        hasher_input(self.inner)
    }

    pub fn new() -> (r: Self)
        ensures
            r.fed() == Seq::<u8>::empty(),
    {
        ContentHasher { inner: hasher_new() }
    }

    /// Appends one piece.
    pub fn update(&mut self, data: &[u8])
        ensures
            final(self).fed() == old(self).fed() + data@,
    {
        hasher_update(&mut self.inner, data);
    }

    /// The hash of all pieces together.
    pub fn finish(&self) -> (r: Vec<u8>)
        ensures
            r@ == blake3_digest(self.fed()),
            r@.len() == 32,
    {
        hasher_finalize(&self.inner)
    }
}

// --------------------------------------------------------------------- hex --
pub open spec fn hex_digit(n: int) -> char {
    if n < 10 {
        (n + 0x30) as char
    } else {
        (n + 0x57) as char
    }
}

/// Two lowercase hexadecimal digits per byte.
pub open spec fn hex_text(bytes: Seq<u8>) -> Seq<char>
    decreases bytes.len(),
{
    if bytes.len() == 0 {
        Seq::empty()
    } else {
        hex_text(bytes.drop_last()) + seq![
            hex_digit(bytes.last() as int / 16),
            hex_digit(bytes.last() as int % 16),
        ]
    }
}

pub proof fn lemma_hex_len(bytes: Seq<u8>)
    ensures
        hex_text(bytes).len() == 2 * bytes.len(),
    decreases bytes.len(),
{
    if bytes.len() > 0 {
        lemma_hex_len(bytes.drop_last());
    }
}

proof fn lemma_hex_digit(a: int, b: int)
    requires
        0 <= a < 16,
        0 <= b < 16,
        hex_digit(a) == hex_digit(b),
    ensures
        a == b,
{
}

/// Different bytes have different hexadecimal texts.
pub proof fn lemma_hex_injective(a: Seq<u8>, b: Seq<u8>)
    requires
        hex_text(a) == hex_text(b),
    ensures
        a == b,
    decreases a.len(),
{
    lemma_hex_len(a);
    lemma_hex_len(b);
    if a.len() == 0 {
        assert(a =~= b);
    } else {
        let x = hex_text(a);
        let n = x.len() as int;
        let p = hex_text(a.drop_last());
        let q = hex_text(b.drop_last());
        lemma_hex_len(a.drop_last());
        lemma_hex_len(b.drop_last());
        assert(p =~= x.take(n - 2));
        assert(q =~= x.take(n - 2));
        lemma_hex_injective(a.drop_last(), b.drop_last());
        let u = a.last();
        let v = b.last();
        assert(x[n - 2] == hex_digit(u as int / 16));
        assert(x[n - 2] == hex_digit(v as int / 16));
        assert(x[n - 1] == hex_digit(u as int % 16));
        assert(x[n - 1] == hex_digit(v as int % 16));
        lemma_hex_digit(u as int / 16, v as int / 16);
        lemma_hex_digit(u as int % 16, v as int % 16);
        assert(a =~= a.drop_last().push(u));
        assert(b =~= b.drop_last().push(v));
    }
}

/// Hexadecimal text is made of digits and the letters `a` to `f`.
pub proof fn lemma_hex_chars(bytes: Seq<u8>)
    ensures
        forall|i: int|
            0 <= i < hex_text(bytes).len() ==> is_hex_char(#[trigger] hex_text(bytes)[i]),
    decreases bytes.len(),
{
    if bytes.len() > 0 {
        let p = hex_text(bytes.drop_last());
        lemma_hex_chars(bytes.drop_last());
        assert forall|i: int| 0 <= i < hex_text(bytes).len() implies is_hex_char(
            #[trigger] hex_text(bytes)[i],
        ) by {
            if i < p.len() {
                assert(hex_text(bytes)[i] == p[i]);
            }
        }
    }
}

pub open spec fn is_hex_char(c: char) -> bool {
    '0' <= c <= '9' || 'a' <= c <= 'f'
}

fn hex_char(n: u8) -> (r: char)
    requires
        n < 16,
    ensures
        r == hex_digit(n as int),
{
    let code: u32 = if n < 10 {
        n as u32 + 0x30
    } else {
        n as u32 + 0x57
    };
    match char::from_u32(code) {
        Some(c) => c,
        None => '0',
    }
}

/// Lowercase hexadecimal.
pub fn hex(bytes: &[u8]) -> (r: String)
    ensures
        r@ == hex_text(bytes@),
{
    let mut out: String = String::new();
    let mut i: usize = 0;
    assert(out@ =~= hex_text(bytes@.take(0)));
    while i < bytes.len()
        invariant
            i <= bytes@.len(),
            out@ == hex_text(bytes@.take(i as int)),
        decreases bytes@.len() - i,
    {
        let b: u8 = bytes[i];
        let ghost before = out@;
        out.push(hex_char(b / 16));
        out.push(hex_char(b % 16));
        i += 1;
        assert(bytes@.take(i as int).drop_last() =~= bytes@.take(i - 1));
        assert(out@ =~= before + seq![hex_digit(b as int / 16), hex_digit(b as int % 16)]);
    }
    assert(bytes@.take(i as int) =~= bytes@);
    out
}

/// Every byte is written as two hexadecimal digits in lower case, the upper half
/// first.
pub proof fn law_bytes_are_written_in_hex(bytes: Seq<u8>, i: int)
    requires
        0 <= i < bytes.len(),
    ensures
        hex_text(bytes).len() == 2 * bytes.len(),
        ({
            let upper = bytes[i] as int / 16;
            let lower = bytes[i] as int % 16;
            &&& upper < 10 ==> hex_text(bytes)[2 * i] as u32 == '0' as u32 + upper
            &&& upper >= 10 ==> hex_text(bytes)[2 * i] as u32 == 'a' as u32 + upper - 10
            &&& lower < 10 ==> hex_text(bytes)[2 * i + 1] as u32 == '0' as u32 + lower
            &&& lower >= 10 ==> hex_text(bytes)[2 * i + 1] as u32 == 'a' as u32 + lower - 10
        }),
    decreases bytes.len(),
{
    let front = bytes.drop_last();
    lemma_hex_len(front);
    if i < bytes.len() - 1 {
        law_bytes_are_written_in_hex(front, i);
        assert(hex_text(bytes)[2 * i] == hex_text(front)[2 * i]);
        assert(hex_text(bytes)[2 * i + 1] == hex_text(front)[2 * i + 1]);
    } else {
        assert(bytes.last() == bytes[i]);
        assert(hex_text(bytes)[2 * i] == hex_digit(bytes[i] as int / 16));
        assert(hex_text(bytes)[2 * i + 1] == hex_digit(bytes[i] as int % 16));
    }
}

} // verus!
