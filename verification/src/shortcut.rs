//! Minimal Windows `.lnk` (Shell Link) parser: extract the local target path
//! so a broken-shortcut junk rule can tell whether the target still exists.
//!
//! Deliberately conservative. It reads only the LinkInfo `LocalBasePath`
//! (+ CommonPathSuffix), the field Windows fills in for a shortcut to a local
//! file or folder. When the structure is absent, network-only, or in any way
//! unclear, it returns `None` - and a `None` target is treated as "cannot
//! determine, do not flag", so a shortcut is only ever called broken when a
//! concrete local path was resolved and does not exist on disk. Format
//! reference: [MS-SHLLINK].
use crate::codec::{get_le, le_value, lemma_pow256};
use crate::holders::{until_zero, zero_at};
use crate::paths::opt_view;
use crate::text::{from_utf8_lossy, utf8_lossy};
use crate::utf16::{decoded, from_utf16_lossy, units, units_of};
use vstd::prelude::*;

verus! {

pub const HEADER_SIZE: u64 = 0x4C;

/// The number in `w` bytes at an offset, where they are all there.
pub open spec fn number_at(b: Seq<u8>, off: int, w: int) -> Option<int> {
    if 0 <= off && off + w <= b.len() {
        Some(le_value(b.subrange(off, off + w)) as int)
    } else {
        None
    }
}

/// The bytes in front of the first zero.
pub open spec fn until_nul(s: Seq<u8>) -> Seq<u8>
    decreases s.len(),
{
    if s.len() == 0 || s[0] == 0 {
        Seq::empty()
    } else {
        seq![s[0]] + until_nul(s.skip(1))
    }
}

/// The 8-bit string at an offset, where its zero is there too.
pub open spec fn ansi_at(b: Seq<u8>, off: int) -> Option<Seq<char>> {
    if 0 <= off <= b.len() && b.skip(off).contains(0) {
        Some(utf8_lossy(until_nul(b.skip(off))))
    } else {
        None
    }
}

/// The UTF-16 string at an offset, where its zero is there too.
pub open spec fn wide_at(b: Seq<u8>, off: int) -> Option<Seq<char>> {
    if 0 <= off <= b.len() && units(b.skip(off)).contains(0) {
        Some(decoded(until_zero(units(b.skip(off)))))
    } else {
        None
    }
}

/// Where the LinkInfo starts: behind the header, and behind the item list where
/// there is one.
pub open spec fn link_info_at(b: Seq<u8>, flags: int) -> Option<int> {
    if flags % 2 == 0 {
        Some(0x4C)
    } else {
        match number_at(b, 0x4C, 2) {
            Some(size) => Some(0x4C + 2 + size),
            None => None,
        }
    }
}

/// The base path of a LinkInfo at `li`: the Unicode one where its header is
/// long enough to hold it.
pub open spec fn base_path(b: Seq<u8>, li: int) -> Option<Seq<char>> {
    match (number_at(b, li + 4, 4), number_at(b, li + 16, 4), number_at(b, li + 24, 4)) {
        (Some(header), Some(local), Some(_)) => if header >= 0x24 {
            match number_at(b, li + 28, 4) {
                Some(wide) => wide_at(b, li + wide),
                None => None,
            }
        } else {
            ansi_at(b, li + local)
        },
        _ => None,
    }
}

/// What is put behind the base path: nothing where no suffix is announced, and
/// `None` where one is announced that the data does not hold.
pub open spec fn path_suffix(b: Seq<u8>, li: int) -> Option<Seq<char>> {
    match number_at(b, li + 24, 4) {
        Some(off) => if off == 0 {
            Some(Seq::empty())
        } else {
            ansi_at(b, li + off)
        },
        None => None,
    }
}

/// The local path of the LinkInfo at `li`, where it has one.
pub open spec fn link_info_path(b: Seq<u8>, li: int) -> Option<Seq<char>> {
    match (number_at(b, li + 8, 4), base_path(b, li), path_suffix(b, li)) {
        (Some(flags), Some(base), Some(suffix)) => if flags % 2 == 0 || base.len() == 0 {
            None
        } else {
            Some(base + suffix)
        },
        _ => None,
    }
}

/// The local target of a shortcut: its first field is the size of the header,
/// its flags announce a LinkInfo, and that has a local path.
pub open spec fn local_target(b: Seq<u8>) -> Option<Seq<char>> {
    match (number_at(b, 0, 4), number_at(b, 0x14, 4)) {
        (Some(size), Some(flags)) => if size != 0x4C || (flags / 2) % 2 == 0 {
            None
        } else {
            match link_info_at(b, flags) {
                Some(li) => link_info_path(b, li),
                None => None,
            }
        },
        _ => None,
    }
}

/// The number in the `w` bytes at an offset.
fn read(b: &[u8], off: u64, w: u64) -> (r: Option<u64>)
    requires
        off <= 0xFFFF_FFFF_FFFF,
        w == 2 || w == 4,
    ensures
        (match r {
            Some(n) => Some(n as int),
            None => None,
        }) == number_at(b@, off as int, w as int),
        r matches Some(n) ==> n <= 0xFFFF_FFFF && (w == 2 ==> n <= 0xFFFF),
{
    if off + w <= b.len() as u64 {
        proof {
            lemma_pow256();
        }
        Some(get_le(b, off as usize, (off + w) as usize))
    } else {
        None
    }
}

fn ansi_cstr(b: &[u8], off: u64) -> (r: Option<String>)
    ensures
        opt_view(r) == ansi_at(b@, off as int),
{
    let n: usize = b.len();
    if off > n as u64 {
        return None;
    }
    let from: usize = off as usize;
    let mut bytes: Vec<u8> = Vec::new();
    let mut i: usize = from;
    assert(bytes@ + until_nul(b@.skip(from as int)) =~= until_nul(b@.skip(from as int)));
    while i < n && b[i] != 0
        invariant
            from <= i <= n == b@.len(),
            bytes@ + until_nul(b@.skip(i as int)) == until_nul(b@.skip(from as int)),
            forall|k: int| from <= k < i ==> #[trigger] b@[k] != 0,
        decreases n - i,
    {
        proof {
            let rest = b@.skip(i as int);
            assert(rest.skip(1) =~= b@.skip(i + 1));
            assert(bytes@ + (seq![b@[i as int]] + until_nul(rest.skip(1))) =~= bytes@.push(
                b@[i as int],
            ) + until_nul(rest.skip(1)));
        }
        bytes.push(b[i]);
        i += 1;
    }
    if i == n {
        assert forall|k: int| 0 <= k < b@.skip(from as int).len() implies b@.skip(from as int)[k]
            != 0 by {
            assert(b@[from + k] != 0);
        }
        return None;
    }
    assert(b@.skip(from as int)[i - from] == 0);
    assert(until_nul(b@.skip(i as int)) =~= Seq::empty());
    assert(bytes@ + Seq::empty() =~= bytes@);
    Some(from_utf8_lossy(bytes.as_slice()))
}

fn utf16_cstr(b: &[u8], off: u64) -> (r: Option<String>)
    ensures
        opt_view(r) == wide_at(b@, off as int),
{
    let n: usize = b.len();
    if off > n as u64 {
        return None;
    }
    let from: usize = off as usize;
    let mut bytes: Vec<u8> = Vec::new();
    let mut i: usize = from;
    while i < n
        invariant
            from <= i <= n == b@.len(),
            bytes@ == b@.subrange(from as int, i as int),
        decreases n - i,
    {
        bytes.push(b[i]);
        i += 1;
        assert(b@.subrange(from as int, i as int) =~= b@.subrange(from as int, i - 1).push(
            b@[i - 1],
        ));
    }
    assert(bytes@ =~= b@.skip(from as int));
    let wide: Vec<u16> = units_of(bytes.as_slice());
    let end: usize = zero_at(wide.as_slice());
    if end == wide.len() {
        return None;
    }
    assert(wide@[end as int] == 0);
    Some(from_utf16_lossy(wide.as_slice(), 0, end))
}

fn read_link_info(b: &[u8], li: u64) -> (r: Option<String>)
    requires
        li <= 0xFFFF_FFFF,
    ensures
        opt_view(r) == link_info_path(b@, li as int),
{
    let flags: u64 = match read(b, li + 8, 4) {
        Some(n) => n,
        None => {
            return None;
        },
    };
    if flags % 2 == 0 {
        return None;
    }
    let header: u64 = match read(b, li + 4, 4) {
        Some(n) => n,
        None => {
            return None;
        },
    };
    let local: u64 = match read(b, li + 16, 4) {
        Some(n) => n,
        None => {
            return None;
        },
    };
    let suffix_off: u64 = match read(b, li + 24, 4) {
        Some(n) => n,
        None => {
            return None;
        },
    };
    let base: Option<String> = if header >= 0x24 {
        match read(b, li + 28, 4) {
            Some(wide) => utf16_cstr(b, li + wide),
            None => None,
        }
    } else {
        ansi_cstr(b, li + local)
    };
    match base {
        Some(base) => {
            if base.as_str().unicode_len() == 0 {
                return None;
            }
            let mut path: String = base;
            if suffix_off != 0 {
                match ansi_cstr(b, li + suffix_off) {
                    Some(s) => path.push_str(s.as_str()),
                    None => {
                        return None;
                    },
                }
            }
            proof {
                let base_text = base_path(b@, li as int)->0;
                assert(base_text + Seq::empty() =~= base_text);
            }
            Some(path)
        },
        None => None,
    }
}

/// Resolve the local target path a `.lnk` points at, or `None` when it cannot
/// be determined from the LinkInfo (no local base path, network target,
/// truncated/invalid data).
pub fn local_target_path(bytes: &[u8]) -> (r: Option<String>)
    ensures
        opt_view(r) == local_target(bytes@),
{
    match read(bytes, 0, 4) {
        Some(size) => {
            if size != HEADER_SIZE {
                return None;
            }
        },
        None => {
            return None;
        },
    }
    let flags: u64 = match read(bytes, 0x14, 4) {
        Some(n) => n,
        None => {
            return None;
        },
    };
    let mut li: u64 = HEADER_SIZE;
    if flags % 2 != 0 {
        match read(bytes, HEADER_SIZE, 2) {
            Some(size) => {
                li = HEADER_SIZE + 2 + size;
            },
            None => {
                return None;
            },
        }
    }
    if (flags / 2) % 2 == 0 {
        return None;
    }
    read_link_info(bytes, li)
}

} // verus!
