//! Where a shortcut points, read off its bytes.
use crate::codec::lemma_number_of_bytes;
use crate::holders::law_name_ends_at_the_first_zero;
use crate::shortcut::{ansi_at, link_info_path, local_target, number_at, until_nul};
use crate::text::utf8_lossy;
use crate::utf16::{decoded, units};
use vstd::prelude::*;

verus! {

/// The number in two bytes, the least significant first.
pub open spec fn word_at(b: Seq<u8>, off: int) -> int {
    b[off] + 0x100 * b[off + 1]
}

/// The number in four bytes, the least significant first.
pub open spec fn long_at(b: Seq<u8>, off: int) -> int {
    b[off] + 0x100 * b[off + 1] + 0x1_0000 * b[off + 2] + 0x100_0000 * b[off + 3]
}

proof fn lemma_number_at(b: Seq<u8>, off: int)
    requires
        0 <= off,
    ensures
        off + 2 <= b.len() ==> number_at(b, off, 2) == Some(word_at(b, off)),
        off + 4 <= b.len() ==> number_at(b, off, 4) == Some(long_at(b, off)),
{
    if off + 2 <= b.len() {
        let s = b.subrange(off, off + 2);
        lemma_number_of_bytes(s);
        assert(s[0] == b[off] && s[1] == b[off + 1]);
    }
    if off + 4 <= b.len() {
        let s = b.subrange(off, off + 4);
        lemma_number_of_bytes(s);
        assert(s[0] == b[off] && s[1] == b[off + 1] && s[2] == b[off + 2] && s[3] == b[off + 3]);
    }
}

/// At this place stands the text, ended by a zero byte.
pub open spec fn bytes_at(b: Seq<u8>, off: int, text: Seq<u8>) -> bool {
    &&& 0 <= off && off + text.len() < b.len()
    &&& b.subrange(off, off + text.len()) == text
    &&& b[off + text.len()] == 0
    &&& forall|i: int| 0 <= i < text.len() ==> #[trigger] text[i] != 0
}

proof fn lemma_until_nul(text: Seq<u8>, rest: Seq<u8>)
    requires
        forall|i: int| 0 <= i < text.len() ==> #[trigger] text[i] != 0,
    ensures
        until_nul(text + seq![0u8] + rest) == text,
    decreases text.len(),
{
    let all = text + seq![0u8] + rest;
    if text.len() == 0 {
        assert(all[0] == 0);
        assert(until_nul(all) =~= text);
    } else {
        let tail = text.skip(1);
        assert forall|i: int| 0 <= i < tail.len() implies #[trigger] tail[i] != 0 by {
            assert(tail[i] == text[i + 1]);
        }
        lemma_until_nul(tail, rest);
        assert(all.skip(1) =~= tail + seq![0u8] + rest);
        assert(all[0] == text[0] && text[0] != 0);
        assert(until_nul(all) =~= text);
    }
}

proof fn lemma_ansi_at(b: Seq<u8>, off: int, text: Seq<u8>)
    requires
        bytes_at(b, off, text),
    ensures
        ansi_at(b, off) == Some(utf8_lossy(text)),
{
    let tail = b.skip(off);
    let rest = b.skip(off + text.len() + 1);
    assert(tail =~= text + seq![0u8] + rest) by {
        assert forall|i: int| 0 <= i < text.len() implies #[trigger] tail[i] == text[i] by {
            assert(b.subrange(off, off + text.len())[i] == b[off + i]);
        }
    }
    lemma_until_nul(text, rest);
    assert(tail[text.len() as int] == 0);
    assert(tail.contains(0));
}

/// The shortcut holds a local path in a link information block at this place, in
/// the format of the header size given: the header has its fixed size, says that
/// there is such a block, and the block follows it, behind a list of ids where
/// there is one.
pub open spec fn has_link_info(b: Seq<u8>, li: int) -> bool {
    &&& 0x4C <= b.len()
    &&& long_at(b, 0) == 0x4C
    &&& (long_at(b, 0x14) / 2) % 2 == 1
    &&& long_at(b, 0x14) % 2 == 1 ==> 0x4E <= b.len() && li == 0x4E + word_at(b, 0x4C)
    &&& long_at(b, 0x14) % 2 == 0 ==> li == 0x4C
    &&& li + 0x1C <= b.len()
}

proof fn lemma_link_info(b: Seq<u8>, li: int)
    requires
        has_link_info(b, li),
    ensures
        local_target(b) == link_info_path(b, li),
        0x4C <= li,
{
    lemma_number_at(b, 0);
    lemma_number_at(b, 0x14);
    if long_at(b, 0x14) % 2 == 1 {
        lemma_number_at(b, 0x4C);
    }
}

/// A shortcut with a short link information block points to its local base path
/// and the suffix behind it, each a text that ends at a zero byte.
pub proof fn law_shortcut_points_to_its_local_path(
    b: Seq<u8>,
    li: int,
    base: Seq<u8>,
    suffix: Seq<u8>,
)
    requires
        has_link_info(b, li),
        long_at(b, li + 4) < 0x24,
        long_at(b, li + 8) % 2 == 1,
        bytes_at(b, li + long_at(b, li + 0x10), base),
        long_at(b, li + 0x18) == 0 ==> suffix.len() == 0,
        long_at(b, li + 0x18) != 0 ==> bytes_at(b, li + long_at(b, li + 0x18), suffix),
        utf8_lossy(base).len() > 0,
    ensures
        long_at(b, li + 0x18) != 0 ==> local_target(b) == Some(
            utf8_lossy(base) + utf8_lossy(suffix),
        ),
        long_at(b, li + 0x18) == 0 ==> local_target(b) == Some(utf8_lossy(base)),
{
    lemma_link_info(b, li);
    lemma_number_at(b, li + 4);
    lemma_number_at(b, li + 8);
    lemma_number_at(b, li + 0x10);
    lemma_number_at(b, li + 0x18);
    lemma_ansi_at(b, li + long_at(b, li + 0x10), base);
    if long_at(b, li + 0x18) != 0 {
        lemma_ansi_at(b, li + long_at(b, li + 0x18), suffix);
    } else {
        assert(utf8_lossy(base) + Seq::<char>::empty() =~= utf8_lossy(base));
    }
}

/// A shortcut with a long link information block points to its wide base path:
/// 16-bit units up to a zero.
pub proof fn law_shortcut_points_to_its_wide_path(
    b: Seq<u8>,
    li: int,
    base: Seq<u16>,
    rest: Seq<u16>,
)
    requires
        has_link_info(b, li),
        li + 0x20 <= b.len(),
        long_at(b, li + 4) >= 0x24,
        long_at(b, li + 8) % 2 == 1,
        li + long_at(b, li + 0x1C) <= b.len(),
        units(b.skip(li + long_at(b, li + 0x1C))) == base + seq![0u16] + rest,
        forall|i: int| 0 <= i < base.len() ==> #[trigger] base[i] != 0,
        long_at(b, li + 0x18) == 0,
        decoded(base).len() > 0,
    ensures
        local_target(b) == Some(decoded(base)),
{
    lemma_link_info(b, li);
    lemma_number_at(b, li + 4);
    lemma_number_at(b, li + 8);
    lemma_number_at(b, li + 0x10);
    lemma_number_at(b, li + 0x18);
    lemma_number_at(b, li + 0x1C);
    let u = base + seq![0u16] + rest;
    law_name_ends_at_the_first_zero(base, rest);
    assert(u[base.len() as int] == 0);
    assert(u.contains(0));
    assert(decoded(base) + Seq::<char>::empty() =~= decoded(base));
}

/// What is no shortcut, has no link information or no local path in it points
/// nowhere.
pub proof fn law_other_files_point_nowhere(b: Seq<u8>, li: int)
    ensures
        b.len() < 0x18 ==> local_target(b) is None,
        0x18 <= b.len() && long_at(b, 0) != 0x4C ==> local_target(b) is None,
        0x18 <= b.len() && (long_at(b, 0x14) / 2) % 2 == 0 ==> local_target(b) is None,
        has_link_info(b, li) && long_at(b, li + 8) % 2 == 0 ==> local_target(b) is None,
{
    if 0x18 <= b.len() {
        lemma_number_at(b, 0);
        lemma_number_at(b, 0x14);
    }
    if has_link_info(b, li) {
        lemma_link_info(b, li);
        lemma_number_at(b, li + 8);
    }
}

} // verus!
