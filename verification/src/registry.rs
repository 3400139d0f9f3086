//! Text values of the Windows registry.
use crate::holders::{until_zero, zero_at};
use crate::paths::opt_view;
use crate::utf16::{
    decoded, encode_utf16, encoded, from_utf16_lossy, law_utf16_roundtrip, lemma_encoded_no_zero,
    units, units_of,
};
use vstd::prelude::*;

verus! {

/// The type of a value.
#[derive(Debug, Clone, Copy, PartialEq, Eq, Structural)]
pub enum RegKind {
    /// `REG_SZ`
    Sz,
    /// `REG_EXPAND_SZ`
    ExpandSz,
    /// Any other type.
    Other,
}

#[derive(Debug)]
pub struct RegData {
    pub kind: RegKind,
    pub bytes: Vec<u8>,
}

#[verifier::ext_equal]
pub struct RegView {
    pub kind: RegKind,
    pub bytes: Seq<u8>,
}

impl View for RegData {
    type V = RegView;

    open spec fn view(&self) -> RegView {
        RegView { kind: self.kind, bytes: self.bytes@ }
    }
}

/// The bytes of units, low byte first.
pub open spec fn unit_bytes(u: Seq<u16>) -> Seq<u8> {
    Seq::new(
        u.len() * 2,
        |i: int|
            if i % 2 == 0 {
                (u[i / 2] % 256) as u8
            } else {
                (u[i / 2] / 256) as u8
            },
    )
}

proof fn lemma_unit_bytes(u: Seq<u16>)
    ensures
        units(unit_bytes(u)) == u,
{
    let b = unit_bytes(u);
    assert forall|i: int| 0 <= i < u.len() implies #[trigger] units(b)[i] == u[i] by {
        assert(b[2 * i] == (u[i] % 256) as u8);
        assert(b[2 * i + 1] == (u[i] / 256) as u8);
    }
    assert(units(b) =~= u);
}

/// A text as it is stored: UTF-16LE with a zero unit at its end.
pub open spec fn stored(s: Seq<char>) -> Seq<u8> {
    unit_bytes(encoded(s).push(0))
}

/// A text value.
pub open spec fn text_value(s: Seq<char>, expand: bool) -> RegView {
    RegView {
        kind: if expand {
            RegKind::ExpandSz
        } else {
            RegKind::Sz
        },
        bytes: stored(s),
    }
}

/// The text of a value, up to the first zero unit; only text values have one.
pub open spec fn value_text(v: RegView) -> Option<Seq<char>> {
    if v.kind is Other {
        None
    } else {
        Some(decoded(until_zero(units(v.bytes))))
    }
}

pub fn reg_value_to_string(v: &RegData) -> (r: Option<String>)
    ensures
        opt_view(r) == value_text(v@),
{
    match v.kind {
        RegKind::Other => None,
        _ => {
            let all: Vec<u16> = units_of(v.bytes.as_slice());
            let end: usize = zero_at(all.as_slice());
            Some(from_utf16_lossy(all.as_slice(), 0, end))
        },
    }
}

fn stored_bytes(s: &str) -> (r: Vec<u8>)
    ensures
        r@ == stored(s@),
{
    let mut u: Vec<u16> = encode_utf16(s);
    u.push(0);
    let n: usize = u.len();
    let mut out: Vec<u8> = Vec::new();
    let mut i: usize = 0;
    while i < n
        invariant
            i <= n == u@.len(),
            out@.len() == 2 * i,
            forall|k: int| 0 <= k < 2 * i ==> #[trigger] out@[k] == unit_bytes(u@)[k],
        decreases n - i,
    {
        out.push((u[i] % 256) as u8);
        out.push((u[i] / 256) as u8);
        i += 1;
    }
    assert(out@ =~= unit_bytes(u@));
    out
}

pub fn expand_sz_value(s: &str) -> (r: RegData)
    ensures
        r@ == text_value(s@, true),
{
    RegData { kind: RegKind::ExpandSz, bytes: stored_bytes(s) }
}

pub fn sz_value(s: &str) -> (r: RegData)
    ensures
        r@ == text_value(s@, false),
{
    RegData { kind: RegKind::Sz, bytes: stored_bytes(s) }
}

/// Units without a zero are all in front of a zero put behind them.
proof fn lemma_until_zero(u: Seq<u16>)
    requires
        forall|i: int| 0 <= i < u.len() ==> #[trigger] u[i] != 0,
    ensures
        until_zero(u.push(0)) == u,
    decreases u.len(),
{
    let v = u.push(0);
    if u.len() == 0 {
        assert(until_zero(v) =~= u);
    } else {
        assert(v.skip(1) =~= u.skip(1).push(0));
        assert(v[0] == u[0]);
        lemma_until_zero(u.skip(1));
        assert(seq![u[0]] + u.skip(1) =~= u);
    }
}

/// A stored text without a zero character reads back as it was, and a value
/// keeps its type.
pub proof fn law_registry_text_roundtrip(s: Seq<char>, expand: bool)
    requires
        forall|i: int| 0 <= i < s.len() ==> #[trigger] s[i] != '\0',
    ensures
        value_text(text_value(s, expand)) == Some(s),
        text_value(s, expand).kind == if expand {
            RegKind::ExpandSz
        } else {
            RegKind::Sz
        },
{
    lemma_unit_bytes(encoded(s).push(0));
    lemma_encoded_no_zero(s);
    lemma_until_zero(encoded(s));
    law_utf16_roundtrip(s);
}

/// A text value is stored as 16-bit units, the low byte first, and ends with a
/// zero unit.
pub proof fn law_stored_text_is_little_endian(s: Seq<char>, expand: bool, i: int)
    requires
        0 <= i < encoded(s).len(),
    ensures
        text_value(s, expand).bytes.len() == 2 * encoded(s).len() + 2,
        text_value(s, expand).bytes[2 * i] + 0x100 * text_value(s, expand).bytes[2 * i + 1]
            == encoded(s)[i],
        text_value(s, expand).bytes[2 * encoded(s).len() as int] == 0,
        text_value(s, expand).bytes[2 * encoded(s).len() as int + 1] == 0,
{
    let u = encoded(s).push(0);
    let n = encoded(s).len() as int;
    assert((2 * i) / 2 == i && (2 * i + 1) / 2 == i);
    assert((2 * n) / 2 == n && (2 * n + 1) / 2 == n);
    assert(u[i] == encoded(s)[i] && u[n] == 0);
}

/// Of a value that is no text there is none to read.
pub proof fn law_only_text_values_are_read(v: RegView)
    ensures
        value_text(v) is Some <==> v.kind is Sz || v.kind is ExpandSz,
{
}

} // verus!
