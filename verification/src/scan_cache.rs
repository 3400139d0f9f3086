//! Persisted scan snapshots so a re-analysis does not start from zero.
//!
//! A snapshot is the full record list of one scan plus the USN-journal
//! checkpoint taken just before it. Format: little-endian binary, paths
//! prefix-compressed against the previous (sorted) record,
//! BLAKE3-checksummed. Any parse failure - corruption, version bump,
//! truncation - loads as `None`; the caller falls back to a full scan.
use crate::codec::{
    bits_of_i64, get_le, i64_bits, i64_from_bits, i64_of_bits, le_bytes, le_value, lemma_assoc,
    lemma_le_len, lemma_pow256, lemma_take_le, lemma_take_str, put_le, put_slice, put_str,
    str_bytes, take_le, take_str, Reader,
};
use crate::digest::{
    blake3_digest, blake3_hash, hex, hex_text, lemma_hex_len, ContentHasher,
};
use crate::lists::{lemma_filter_ends, lemma_filter_take};
use crate::order::{
    before, descending, is_sorted_copy, is_stable_order, key_views, lemma_sorted_copy_items, permuted,
    rank_descending, sort_by_keys, SortKey,
};
use crate::paths::{extension, extension_of, file_name, file_name_of, opt_view, PathStyle};
use crate::scanner::ScanOutcome;
use crate::text::{chars_of, join2, lowercase, string_of, to_lowercase, views};
use crate::types::{records, skips, FileRecord, Record, Skipped, SkippedPath};
use crate::usn::UsnCheckpoint;
use vstd::prelude::*;
use vstd::utf8::{
    decode_utf8, encode_scalar, encode_utf8, encode_utf8_decode_utf8, encode_utf8_valid_utf8, is_char_boundary,
    valid_utf8,
};

verus! {

#[derive(Debug, PartialEq)]
pub struct SnapshotMeta {
    /// The scanned root exactly as requested.
    pub root: String,
    /// Exclude globs the scan ran with; a request with different excludes
    /// hashes to a different cache file and never sees this snapshot.
    pub excludes: Vec<String>,
    pub created_unix: i64,
    /// Journal position at scan start; None on non-NTFS / non-Windows.
    pub usn: Option<UsnCheckpoint>,
}

#[derive(Debug)]
pub struct Snapshot {
    pub meta: SnapshotMeta,
    pub outcome: ScanOutcome,
}

/// What a `Snapshot` holds.
#[verifier::ext_equal]
pub struct SnapshotView {
    pub root: Seq<char>,
    pub excludes: Seq<Seq<char>>,
    pub created_unix: i64,
    pub usn: Option<UsnCheckpoint>,
    pub records: Seq<Record>,
    pub skipped: Seq<Skipped>,
}

impl View for Snapshot {
    type V = SnapshotView;

    open spec fn view(&self) -> SnapshotView {
        SnapshotView {
            root: self.meta.root@,
            excludes: views(self.meta.excludes@),
            created_unix: self.meta.created_unix,
            usn: self.meta.usn,
            records: records(self.outcome.records@),
            skipped: skips(self.outcome.skipped@),
        }
    }
}

// ------------------------------------------------------------------ format --
/// `CMSC`
pub open spec fn magic() -> Seq<u8> {
    seq![0x43u8, 0x4du8, 0x53u8, 0x43u8]
}

pub const FORMAT_VERSION: u32 = 1;

/// A list of strings, one after the other.
pub open spec fn strs_bytes(v: Seq<Seq<char>>) -> Seq<u8>
    decreases v.len(),
{
    if v.len() == 0 {
        Seq::empty()
    } else {
        str_bytes(v[0]) + strs_bytes(v.skip(1))
    }
}

/// A checkpoint: a presence byte, then its three numbers.
pub open spec fn usn_bytes(u: Option<UsnCheckpoint>) -> Seq<u8> {
    match u {
        None => seq![0u8],
        Some(cp) => seq![1u8] + le_bytes(cp.journal_id as nat, 8) + le_bytes(
            i64_bits(cp.next_usn),
            8,
        ) + le_bytes(cp.volume_serial as nat, 4),
    }
}

/// How many bytes from `k` on `a` and `b` have in common, up to `max`.
pub open spec fn common_len(a: Seq<u8>, b: Seq<u8>, max: int, k: int) -> int
    decreases max - k,
{
    if 0 <= k < max && k < a.len() && k < b.len() && a[k] == b[k] {
        common_len(a, b, max, k + 1)
    } else {
        k
    }
}

/// The last character boundary of `b` at or below `n`.
pub open spec fn boundary_below(b: Seq<u8>, n: int) -> int
    decreases n,
{
    if n <= 0 || is_char_boundary(b, n) {
        n
    } else {
        boundary_below(b, n - 1)
    }
}

/// How many bytes a path shares with the one before it: the common bytes, at
/// most 65535 of them, that end at a character boundary.
pub open spec fn shared_len(prev: Seq<char>, path: Seq<char>) -> int {
    let a = encode_utf8(prev);
    let b = encode_utf8(path);
    boundary_below(b, common_len(a, b, 65535, 0))
}

/// The part of `path` behind its first `n` bytes.
pub open spec fn path_rest(path: Seq<char>, n: int) -> Seq<char> {
    decode_utf8(encode_utf8(path).skip(n))
}

/// The numbers of a record.
pub open spec fn numbers_bytes(r: Record) -> Seq<u8> {
    le_bytes(r.size as nat, 8) + le_bytes(i64_bits(r.created), 8) + le_bytes(
        i64_bits(r.modified),
        8,
    ) + le_bytes(i64_bits(r.accessed), 8) + seq![
        if r.is_dir {
            1u8
        } else {
            0u8
        },
    ] + le_bytes(r.attributes as nat, 4)
}

/// A record behind one with the path `prev`.
pub open spec fn record_bytes(prev: Seq<char>, r: Record) -> Seq<u8> {
    let n = shared_len(prev, r.path);
    le_bytes(n as nat, 2) + str_bytes(path_rest(r.path, n)) + numbers_bytes(r)
}

pub open spec fn records_bytes(prev: Seq<char>, v: Seq<Record>) -> Seq<u8>
    decreases v.len(),
{
    if v.len() == 0 {
        Seq::empty()
    } else {
        record_bytes(prev, v[0]) + records_bytes(v[0].path, v.skip(1))
    }
}

pub open spec fn skips_bytes(v: Seq<Skipped>) -> Seq<u8>
    decreases v.len(),
{
    if v.len() == 0 {
        Seq::empty()
    } else {
        str_bytes(v[0].path) + str_bytes(v[0].reason) + skips_bytes(v.skip(1))
    }
}

/// The records and the skipped paths, each behind their number.
pub open spec fn outcome_bytes(recs: Seq<Record>, sk: Seq<Skipped>) -> Seq<u8> {
    le_bytes(recs.len(), 8) + (records_bytes(Seq::empty(), recs) + (le_bytes(sk.len(), 4)
        + skips_bytes(sk)))
}

/// Everything behind the checksum.
pub open spec fn payload(s: SnapshotView) -> Seq<u8> {
    str_bytes(s.root) + (le_bytes(s.excludes.len(), 4) + (strs_bytes(s.excludes) + (le_bytes(
        i64_bits(s.created_unix),
        8,
    ) + (usn_bytes(s.usn) + outcome_bytes(s.records, s.skipped)))))
}

/// The whole file.
pub open spec fn file_bytes(s: SnapshotView) -> Seq<u8> {
    magic() + le_bytes(FORMAT_VERSION as nat, 4) + blake3_digest(payload(s)) + payload(s)
}

// ----------------------------------------------------------------- parsing --
/// The name the scanner gives a record: its file name, or the whole path.
pub open spec fn derived_name(style: PathStyle, path: Seq<char>) -> Seq<char> {
    match file_name(style, path) {
        Some(n) => n,
        None => path,
    }
}

/// The extension the scanner gives a record: lowercased, and none for a
/// directory.
pub open spec fn derived_ext(style: PathStyle, path: Seq<char>, is_dir: bool) -> Option<Seq<char>> {
    if is_dir {
        None
    } else {
        match extension(style, path) {
            Some(e) => Some(lowercase(e)),
            None => None,
        }
    }
}

pub open spec fn take_strs(s: Seq<u8>, n: nat) -> Option<(Seq<Seq<char>>, Seq<u8>)>
    decreases n,
{
    if n == 0 {
        Some((Seq::empty(), s))
    } else {
        match take_str(s) {
            None => None,
            Some((t, rest)) => match take_strs(rest, (n - 1) as nat) {
                None => None,
                Some((ts, end)) => Some((seq![t] + ts, end)),
            },
        }
    }
}

pub open spec fn take_usn(s: Seq<u8>) -> Option<(Option<UsnCheckpoint>, Seq<u8>)> {
    match take_le(s, 1) {
        None => None,
        Some((tag, r0)) => if tag == 0 {
            Some((None, r0))
        } else if tag != 1 {
            None
        } else {
            match take_le(r0, 8) {
                None => None,
                Some((id, r1)) => match take_le(r1, 8) {
                    None => None,
                    Some((next, r2)) => match take_le(r2, 4) {
                        None => None,
                        Some((serial, r3)) => Some(
                            (
                                Some(
                                    UsnCheckpoint {
                                        journal_id: id as u64,
                                        next_usn: i64_of_bits(next),
                                        volume_serial: serial as u32,
                                    },
                                ),
                                r3,
                            ),
                        ),
                    },
                },
            }
        },
    }
}

/// The numbers of a record with the given path and id.
pub open spec fn take_numbers(
    style: PathStyle,
    path: Seq<char>,
    id: nat,
    s: Seq<u8>,
) -> Option<(Record, Seq<u8>)> {
    match take_le(s, 8) {
        None => None,
        Some((size, r1)) => match take_le(r1, 8) {
            None => None,
            Some((created, r2)) => match take_le(r2, 8) {
                None => None,
                Some((modified, r3)) => match take_le(r3, 8) {
                    None => None,
                    Some((accessed, r4)) => match take_le(r4, 1) {
                        None => None,
                        Some((dir, r5)) => if dir > 1 {
                            None
                        } else {
                            match take_le(r5, 4) {
                                None => None,
                                Some((attributes, r6)) => Some(
                                    (
                                        Record {
                                            id,
                                            path,
                                            name: derived_name(style, path),
                                            ext: derived_ext(style, path, dir == 1),
                                            size: size as u64,
                                            created: i64_of_bits(created),
                                            modified: i64_of_bits(modified),
                                            accessed: i64_of_bits(accessed),
                                            is_dir: dir == 1,
                                            attributes: attributes as u32,
                                        },
                                        r6,
                                    ),
                                ),
                            }
                        },
                    },
                },
            },
        },
    }
}

/// A record behind one with the path `prev`.
pub open spec fn take_record(
    style: PathStyle,
    prev: Seq<char>,
    id: nat,
    s: Seq<u8>,
) -> Option<(Record, Seq<u8>)> {
    let old = encode_utf8(prev);
    match take_le(s, 2) {
        None => None,
        Some((n, r0)) => if n > old.len() || !is_char_boundary(old, n as int) {
            None
        } else {
            match take_str(r0) {
                None => None,
                Some((rest, r1)) => take_numbers(
                    style,
                    decode_utf8(old.take(n as int)) + rest,
                    id,
                    r1,
                ),
            }
        },
    }
}

pub open spec fn take_records(
    style: PathStyle,
    prev: Seq<char>,
    id: nat,
    n: nat,
    s: Seq<u8>,
) -> Option<(Seq<Record>, Seq<u8>)>
    decreases n,
{
    if n == 0 {
        Some((Seq::empty(), s))
    } else {
        match take_record(style, prev, id, s) {
            None => None,
            Some((r, rest)) => match take_records(style, r.path, id + 1, (n - 1) as nat, rest) {
                None => None,
                Some((rs, end)) => Some((seq![r] + rs, end)),
            },
        }
    }
}

pub open spec fn take_skip(s: Seq<u8>) -> Option<(Skipped, Seq<u8>)> {
    match take_str(s) {
        None => None,
        Some((path, r0)) => match take_str(r0) {
            None => None,
            Some((reason, r1)) => Some((Skipped { path, reason }, r1)),
        },
    }
}

pub open spec fn take_skips(s: Seq<u8>, n: nat) -> Option<(Seq<Skipped>, Seq<u8>)>
    decreases n,
{
    if n == 0 {
        Some((Seq::empty(), s))
    } else {
        match take_skip(s) {
            None => None,
            Some((t, rest)) => match take_skips(rest, (n - 1) as nat) {
                None => None,
                Some((ts, end)) => Some((seq![t] + ts, end)),
            },
        }
    }
}

/// The records and skipped paths at the end of a payload, with nothing behind
/// them.
pub open spec fn parsed_outcome(style: PathStyle, s: Seq<u8>) -> Option<
    (Seq<Record>, Seq<Skipped>),
> {
    match take_le(s, 8) {
        None => None,
        Some((n, r0)) => match take_records(style, Seq::empty(), 0, n, r0) {
            None => None,
            Some((recs, r1)) => match take_le(r1, 4) {
                None => None,
                Some((m, r2)) => match take_skips(r2, m) {
                    None => None,
                    Some((sk, r3)) => if r3.len() == 0 {
                        Some((recs, sk))
                    } else {
                        None
                    },
                },
            },
        },
    }
}

/// What a payload says.
pub open spec fn parsed_payload(style: PathStyle, s: Seq<u8>) -> Option<SnapshotView> {
    match take_str(s) {
        None => None,
        Some((root, r0)) => match take_le(r0, 4) {
            None => None,
            Some((n, r1)) => match take_strs(r1, n) {
                None => None,
                Some((excludes, r2)) => match take_le(r2, 8) {
                    None => None,
                    Some((created, r3)) => match take_usn(r3) {
                        None => None,
                        Some((usn, r4)) => match parsed_outcome(style, r4) {
                            None => None,
                            Some((recs, sk)) => Some(
                                SnapshotView {
                                    root,
                                    excludes,
                                    created_unix: i64_of_bits(created),
                                    usn,
                                    records: recs,
                                    skipped: sk,
                                },
                            ),
                        },
                    },
                },
            },
        },
    }
}

/// The magic, the version and the checksum are in order.
pub open spec fn intact(data: Seq<u8>) -> bool {
    &&& data.len() >= 40
    &&& data.take(4) == magic()
    &&& le_value(data.subrange(4, 8)) == FORMAT_VERSION
    &&& data.subrange(8, 40) == blake3_digest(data.skip(40))
}

/// What a snapshot file says, if anything.
pub open spec fn parsed(style: PathStyle, data: Seq<u8>) -> Option<SnapshotView> {
    if intact(data) {
        parsed_payload(style, data.skip(40))
    } else {
        None
    }
}

// -------------------------------------------------------------- round trip --
/// Nothing is lost in the file: every length fits its field, and ids, names
/// and extensions are the ones a scan assigns.
pub open spec fn faithful(style: PathStyle, s: SnapshotView) -> bool {
    &&& encode_utf8(s.root).len() < 0x1_0000_0000
    &&& s.excludes.len() < 0x1_0000_0000
    &&& forall|i: int|
        0 <= i < s.excludes.len() ==> encode_utf8(#[trigger] s.excludes[i]).len() < 0x1_0000_0000
    &&& s.records.len() < 0x1_0000_0000_0000_0000
    &&& faithful_records(style, s.records, 0)
    &&& s.skipped.len() < 0x1_0000_0000
    &&& faithful_skips(s.skipped)
}

/// The records are numbered from `id` and named the way a scan names them.
pub open spec fn faithful_records(style: PathStyle, v: Seq<Record>, id: nat) -> bool {
    forall|i: int|
        0 <= i < v.len() ==> {
            let r = #[trigger] v[i];
            &&& r.id == id + i
            &&& encode_utf8(r.path).len() < 0x1_0000_0000
            &&& r.name == derived_name(style, r.path)
            &&& r.ext == derived_ext(style, r.path, r.is_dir)
        }
}

pub open spec fn faithful_skips(v: Seq<Skipped>) -> bool {
    forall|i: int|
        0 <= i < v.len() ==> encode_utf8((#[trigger] v[i]).path).len() < 0x1_0000_0000
            && encode_utf8(v[i].reason).len() < 0x1_0000_0000
}

proof fn lemma_strs(v: Seq<Seq<char>>, rest: Seq<u8>)
    requires
        forall|i: int| 0 <= i < v.len() ==> encode_utf8(#[trigger] v[i]).len() < 0x1_0000_0000,
    ensures
        take_strs(strs_bytes(v) + rest, v.len()) == Some((v, rest)),
    decreases v.len(),
{
    if v.len() == 0 {
        assert(strs_bytes(v) + rest =~= rest);
        assert(v =~= Seq::empty());
    } else {
        let tail = v.skip(1);
        assert forall|i: int| 0 <= i < tail.len() implies encode_utf8(#[trigger] tail[i]).len()
            < 0x1_0000_0000 by {
            assert(tail[i] == v[i + 1]);
        }
        lemma_strs(tail, rest);
        lemma_take_str(v[0], strs_bytes(tail) + rest);
        lemma_assoc(str_bytes(v[0]), strs_bytes(tail), rest);
        assert(seq![v[0]] + tail =~= v);
    }
}

proof fn lemma_skips(v: Seq<Skipped>, rest: Seq<u8>)
    requires
        faithful_skips(v),
    ensures
        take_skips(skips_bytes(v) + rest, v.len()) == Some((v, rest)),
    decreases v.len(),
{
    if v.len() == 0 {
        assert(skips_bytes(v) + rest =~= rest);
        assert(v =~= Seq::empty());
    } else {
        let tail = v.skip(1);
        assert forall|i: int| 0 <= i < tail.len() implies encode_utf8((#[trigger] tail[i]).path).len()
            < 0x1_0000_0000 && encode_utf8(tail[i].reason).len() < 0x1_0000_0000 by {
            assert(tail[i] == v[i + 1]);
        }
        lemma_skips(tail, rest);
        let end = skips_bytes(tail) + rest;
        lemma_take_str(v[0].reason, end);
        lemma_take_str(v[0].path, str_bytes(v[0].reason) + end);
        lemma_assoc(str_bytes(v[0].path) + str_bytes(v[0].reason), skips_bytes(tail), rest);
        lemma_assoc(str_bytes(v[0].path), str_bytes(v[0].reason), end);
        assert(seq![v[0]] + tail =~= v);
    }
}

proof fn lemma_byte(b: u8, rest: Seq<u8>)
    ensures
        take_le(seq![b] + rest, 1) == Some((b as nat, rest)),
{
    let all = seq![b] + rest;
    assert(all.take(1) =~= seq![b]);
    assert(seq![b].skip(1) =~= Seq::empty());
    assert(le_value(seq![b]) == b as nat) by {
        reveal_with_fuel(le_value, 2);
    }
    assert(all.skip(1) =~= rest);
}

proof fn lemma_usn(u: Option<UsnCheckpoint>, rest: Seq<u8>)
    ensures
        take_usn(usn_bytes(u) + rest) == Some((u, rest)),
{
    lemma_pow256();
    match u {
        None => {
            lemma_byte(0, rest);
        },
        Some(cp) => {
            let r3 = rest;
            let r2 = le_bytes(cp.volume_serial as nat, 4) + r3;
            let r1 = le_bytes(i64_bits(cp.next_usn), 8) + r2;
            let r0 = le_bytes(cp.journal_id as nat, 8) + r1;
            lemma_byte(1, r0);
            lemma_take_le(cp.journal_id as nat, 8, r1);
            lemma_take_le(i64_bits(cp.next_usn), 8, r2);
            lemma_take_le(cp.volume_serial as nat, 4, r3);
            assert(usn_bytes(u) + rest =~= seq![1u8] + r0);
        },
    }
}

proof fn lemma_common_len(a: Seq<u8>, b: Seq<u8>, max: int, k: int)
    requires
        0 <= k <= max,
        k <= a.len(),
        k <= b.len(),
        a.take(k) == b.take(k),
    ensures
        k <= common_len(a, b, max, k) <= max,
        common_len(a, b, max, k) <= a.len(),
        common_len(a, b, max, k) <= b.len(),
        a.take(common_len(a, b, max, k)) == b.take(common_len(a, b, max, k)),
    decreases max - k,
{
    if k < max && k < a.len() && k < b.len() && a[k] == b[k] {
        assert(a.take(k + 1) =~= a.take(k).push(a[k]));
        assert(b.take(k + 1) =~= b.take(k).push(b[k]));
        lemma_common_len(a, b, max, k + 1);
    }
}

proof fn lemma_boundary_below(b: Seq<u8>, n: int)
    requires
        valid_utf8(b),
        0 <= n,
    ensures
        0 <= boundary_below(b, n) <= n,
        is_char_boundary(b, boundary_below(b, n)),
    decreases n,
{
    if n > 0 && !is_char_boundary(b, n) {
        lemma_boundary_below(b, n - 1);
    }
}

/// Where one of two equal beginnings ends at a character boundary, so does the
/// other.
proof fn lemma_boundary_shared(a: Seq<u8>, b: Seq<u8>, n: int)
    requires
        valid_utf8(a),
        valid_utf8(b),
        0 <= n <= a.len(),
        n <= b.len(),
        a.take(n) == b.take(n),
        is_char_boundary(b, n),
    ensures
        is_char_boundary(a, n),
{
    vstd::utf8::valid_utf8_split(b, n);
    assert(b.subrange(0, n) =~= a.subrange(0, n)) by {
        assert(b.subrange(0, n) =~= b.take(n));
        assert(a.subrange(0, n) =~= a.take(n));
    }
    vstd::utf8::is_char_boundary_start_end_of_seq(a);
    if n < a.len() {
        let tail = a.subrange(n, a.len() as int);
        if !valid_utf8(tail) {
            vstd::utf8::partial_valid_partial_invalid_utf8(a, n);
        }
        assert(tail[0] == a[n]);
        vstd::utf8::is_char_boundary_iff_not_is_continuation_byte(a, n);
    }
}

/// The shared bytes are a prefix of both paths and end at a character.
pub proof fn lemma_shared(prev: Seq<char>, path: Seq<char>)
    ensures
        ({
            let n = shared_len(prev, path);
            let a = encode_utf8(prev);
            let b = encode_utf8(path);
            &&& 0 <= n <= 65535
            &&& n <= a.len()
            &&& n <= b.len()
            &&& is_char_boundary(a, n)
            &&& is_char_boundary(b, n)
            &&& valid_utf8(b.skip(n))
            &&& encode_utf8(path_rest(path, n)) == b.skip(n)
            &&& decode_utf8(a.take(n)) + path_rest(path, n) == path
        }),
{
    let a = encode_utf8(prev);
    let b = encode_utf8(path);
    encode_utf8_valid_utf8(prev);
    encode_utf8_valid_utf8(path);
    let m = common_len(a, b, 65535, 0);
    assert(a.take(0) =~= b.take(0));
    lemma_common_len(a, b, 65535, 0);
    lemma_boundary_below(b, m);
    let n = boundary_below(b, m);
    assert(a.take(n) =~= b.take(n)) by {
        assert forall|i: int| 0 <= i < n implies a[i] == b[i] by {
            assert(a.take(m)[i] == b.take(m)[i]);
        }
    }
    lemma_boundary_shared(a, b, n);
    vstd::utf8::valid_utf8_split(b, n);
    vstd::utf8::decode_utf8_split(b, n);
    assert(b.subrange(0, n) =~= a.take(n));
    assert(b.subrange(n, b.len() as int) =~= b.skip(n));
    encode_utf8_decode_utf8(path);
    vstd::utf8::decode_utf8_encode_utf8(b.skip(n));
}

proof fn lemma_numbers(style: PathStyle, r: Record, rest: Seq<u8>)
    requires
        r.name == derived_name(style, r.path),
        r.ext == derived_ext(style, r.path, r.is_dir),
    ensures
        take_numbers(style, r.path, r.id, numbers_bytes(r) + rest) == Some((r, rest)),
{
    lemma_pow256();
    let dir: u8 = if r.is_dir {
        1u8
    } else {
        0u8
    };
    let r5 = le_bytes(r.attributes as nat, 4) + rest;
    let r4 = seq![dir] + r5;
    let r3 = le_bytes(i64_bits(r.accessed), 8) + r4;
    let r2 = le_bytes(i64_bits(r.modified), 8) + r3;
    let r1 = le_bytes(i64_bits(r.created), 8) + r2;
    lemma_take_le(r.size as nat, 8, r1);
    lemma_take_le(i64_bits(r.created), 8, r2);
    lemma_take_le(i64_bits(r.modified), 8, r3);
    lemma_take_le(i64_bits(r.accessed), 8, r4);
    lemma_byte(dir, r5);
    lemma_take_le(r.attributes as nat, 4, rest);
    assert(numbers_bytes(r) + rest =~= le_bytes(r.size as nat, 8) + r1);
}

proof fn lemma_record(style: PathStyle, prev: Seq<char>, r: Record, rest: Seq<u8>)
    requires
        encode_utf8(r.path).len() < 0x1_0000_0000,
        r.name == derived_name(style, r.path),
        r.ext == derived_ext(style, r.path, r.is_dir),
    ensures
        take_record(style, prev, r.id, record_bytes(prev, r) + rest) == Some((r, rest)),
{
    lemma_shared(prev, r.path);
    lemma_pow256();
    let n = shared_len(prev, r.path);
    let tail = path_rest(r.path, n);
    let r1 = numbers_bytes(r) + rest;
    lemma_numbers(style, r, rest);
    lemma_take_str(tail, r1);
    lemma_take_le(n as nat, 2, str_bytes(tail) + r1);
    lemma_assoc(le_bytes(n as nat, 2) + str_bytes(tail), numbers_bytes(r), rest);
    lemma_assoc(le_bytes(n as nat, 2), str_bytes(tail), r1);
}

proof fn lemma_records(style: PathStyle, prev: Seq<char>, id: nat, v: Seq<Record>, rest: Seq<u8>)
    requires
        faithful_records(style, v, id),
    ensures
        take_records(style, prev, id, v.len(), records_bytes(prev, v) + rest) == Some((v, rest)),
    decreases v.len(),
{
    if v.len() == 0 {
        assert(records_bytes(prev, v) + rest =~= rest);
        assert(v =~= Seq::empty());
    } else {
        let tail = v.skip(1);
        assert(faithful_records(style, tail, id + 1)) by {
            assert forall|i: int| 0 <= i < tail.len() implies ({
                let r = #[trigger] tail[i];
                &&& r.id == id + 1 + i
                &&& encode_utf8(r.path).len() < 0x1_0000_0000
                &&& r.name == derived_name(style, r.path)
                &&& r.ext == derived_ext(style, r.path, r.is_dir)
            }) by {
                assert(tail[i] == v[i + 1]);
            }
        }
        lemma_records(style, v[0].path, id + 1, tail, rest);
        lemma_record(style, prev, v[0], records_bytes(v[0].path, tail) + rest);
        lemma_assoc(record_bytes(prev, v[0]), records_bytes(v[0].path, tail), rest);
        assert(seq![v[0]] + tail =~= v);
    }
}

proof fn lemma_outcome(style: PathStyle, recs: Seq<Record>, sk: Seq<Skipped>)
    requires
        recs.len() < 0x1_0000_0000_0000_0000,
        faithful_records(style, recs, 0),
        sk.len() < 0x1_0000_0000,
        faithful_skips(sk),
    ensures
        parsed_outcome(style, outcome_bytes(recs, sk)) == Some((recs, sk)),
{
    lemma_pow256();
    let e: Seq<u8> = Seq::empty();
    let r3 = skips_bytes(sk);
    let r2 = le_bytes(sk.len(), 4) + r3;
    let r1 = records_bytes(Seq::empty(), recs) + r2;
    lemma_take_le(recs.len(), 8, r1);
    lemma_records(style, Seq::empty(), 0, recs, r2);
    lemma_take_le(sk.len(), 4, r3);
    lemma_skips(sk, e);
    assert(r3 + e =~= r3);
}

/// A payload says exactly what was written into it.
pub proof fn law_payload_roundtrip(style: PathStyle, s: SnapshotView)
    requires
        faithful(style, s),
    ensures
        parsed_payload(style, payload(s)) == Some(s),
{
    lemma_pow256();
    let r4 = outcome_bytes(s.records, s.skipped);
    let r3 = usn_bytes(s.usn) + r4;
    let r2 = le_bytes(i64_bits(s.created_unix), 8) + r3;
    let r1 = strs_bytes(s.excludes) + r2;
    let r0 = le_bytes(s.excludes.len(), 4) + r1;
    lemma_take_str(s.root, r0);
    lemma_take_le(s.excludes.len(), 4, r1);
    lemma_strs(s.excludes, r2);
    lemma_take_le(i64_bits(s.created_unix), 8, r3);
    lemma_usn(s.usn, r4);
    lemma_outcome(style, s.records, s.skipped);
}

// ----------------------------------------------------------------- writing --
/// UTF-8-safe length of the common prefix of two strings, capped at 65535.
fn common_prefix(a: &str, b: &str) -> (r: usize)
    ensures
        r == shared_len(a@, b@),
{
    let x: &[u8] = a.as_bytes();
    let y: &[u8] = b.as_bytes();
    let ghost xs = encode_utf8(a@);
    let ghost ys = encode_utf8(b@);
    let mut n: usize = 0;
    while n < 65535 && n < x.len() && n < y.len() && x[n] == y[n]
        invariant
            x@ == xs,
            y@ == ys,
            n <= 65535,
            n <= y@.len(),
            common_len(xs, ys, 65535, 0) == common_len(xs, ys, 65535, n as int),
        decreases 65535 - n,
    {
        n += 1;
    }
    while n > 0 && !b.is_char_boundary(n)
        invariant
            ys == encode_utf8(b@),
            boundary_below(ys, n as int) == boundary_below(ys, common_len(xs, ys, 65535, 0)),
        decreases n,
    {
        n -= 1;
    }
    n
}

fn put_record(buf: &mut Vec<u8>, prev: &str, r: &FileRecord)
    ensures
        final(buf)@ == old(buf)@ + record_bytes(prev@, r@),
{
    let ghost start = buf@;
    let path: &str = r.path.as_str();
    let n: usize = common_prefix(prev, path);
    proof {
        lemma_shared(prev@, path@);
    }
    let (_, rest) = path.split_at(n);
    proof {
        encode_utf8_decode_utf8(rest@);
        assert(encode_utf8(rest@) =~= encode_utf8(path@).skip(n as int));
    }
    put_le(buf, n as u64, 2);
    put_str(buf, rest);
    put_le(buf, r.size, 8);
    put_le(buf, bits_of_i64(r.created), 8);
    put_le(buf, bits_of_i64(r.modified), 8);
    put_le(buf, bits_of_i64(r.accessed), 8);
    buf.push(
        if r.is_dir {
            1
        } else {
            0
        },
    );
    put_le(buf, r.attributes as u64, 4);
    assert(buf@ =~= start + record_bytes(prev@, r@));
}

fn put_records(buf: &mut Vec<u8>, v: &Vec<FileRecord>)
    ensures
        final(buf)@ == old(buf)@ + records_bytes(Seq::empty(), records(v@)),
{
    let ghost start = buf@;
    let ghost all = records(v@);
    let mut i: usize = 0;
    let ghost mut prev: Seq<char> = Seq::empty();
    assert(all.skip(0) =~= all);
    while i < v.len()
        invariant
            i <= v@.len(),
            all == records(v@),
            prev == if i == 0 {
                Seq::<char>::empty()
            } else {
                v@[i - 1].path@
            },
            start + records_bytes(Seq::empty(), all) == buf@ + records_bytes(
                prev,
                all.skip(i as int),
            ),
        decreases v@.len() - i,
    {
        let ghost now = buf@;
        let ghost tail = all.skip(i + 1);
        let empty: String = String::new();
        assert(empty@ =~= Seq::empty());
        let before: &str = if i == 0 {
            empty.as_str()
        } else {
            v[i - 1].path.as_str()
        };
        assert(before@ == prev);
        put_record(buf, before, &v[i]);
        proof {
            assert(all.skip(i as int).skip(1) =~= tail);
            assert(all.skip(i as int)[0] == v@[i as int]@);
            assert(now + (record_bytes(prev, v@[i as int]@) + records_bytes(
                v@[i as int].path@,
                tail,
            )) =~= buf@ + records_bytes(v@[i as int].path@, tail));
            prev = v@[i as int].path@;
        }
        i += 1;
    }
    assert(all.skip(i as int) =~= Seq::empty());
    assert(buf@ + records_bytes(prev, Seq::empty()) =~= buf@);
}

fn put_strs(buf: &mut Vec<u8>, v: &Vec<String>)
    ensures
        final(buf)@ == old(buf)@ + strs_bytes(views(v@)),
{
    let ghost start = buf@;
    let ghost all = views(v@);
    let mut i: usize = 0;
    assert(all.skip(0) =~= all);
    while i < v.len()
        invariant
            i <= v@.len(),
            all == views(v@),
            start + strs_bytes(all) == buf@ + strs_bytes(all.skip(i as int)),
        decreases v@.len() - i,
    {
        let ghost now = buf@;
        put_str(buf, v[i].as_str());
        proof {
            let tail = all.skip(i + 1);
            assert(all.skip(i as int).skip(1) =~= tail);
            assert(now + (str_bytes(v@[i as int]@) + strs_bytes(tail)) =~= buf@ + strs_bytes(tail));
        }
        i += 1;
    }
    assert(all.skip(i as int) =~= Seq::empty());
    assert(buf@ + strs_bytes(Seq::empty()) =~= buf@);
}

fn put_skips(buf: &mut Vec<u8>, v: &Vec<SkippedPath>)
    ensures
        final(buf)@ == old(buf)@ + skips_bytes(skips(v@)),
{
    let ghost start = buf@;
    let ghost all = skips(v@);
    let mut i: usize = 0;
    assert(all.skip(0) =~= all);
    while i < v.len()
        invariant
            i <= v@.len(),
            all == skips(v@),
            start + skips_bytes(all) == buf@ + skips_bytes(all.skip(i as int)),
        decreases v@.len() - i,
    {
        let ghost now = buf@;
        put_str(buf, v[i].path.as_str());
        put_str(buf, v[i].reason.as_str());
        proof {
            let tail = all.skip(i + 1);
            assert(all.skip(i as int).skip(1) =~= tail);
            assert(now + (str_bytes(v@[i as int].path@) + str_bytes(v@[i as int].reason@)
                + skips_bytes(tail)) =~= buf@ + skips_bytes(tail));
        }
        i += 1;
    }
    assert(all.skip(i as int) =~= Seq::empty());
    assert(buf@ + skips_bytes(Seq::empty()) =~= buf@);
}

fn put_usn(buf: &mut Vec<u8>, u: &Option<UsnCheckpoint>)
    ensures
        final(buf)@ == old(buf)@ + usn_bytes(*u),
{
    let ghost start = buf@;
    match u {
        Some(cp) => {
            buf.push(1);
            put_le(buf, cp.journal_id, 8);
            put_le(buf, bits_of_i64(cp.next_usn), 8);
            put_le(buf, cp.volume_serial as u64, 4);
        },
        None => {
            buf.push(0);
        },
    }
    assert(buf@ =~= start + usn_bytes(*u));
}

fn put_outcome(buf: &mut Vec<u8>, o: &ScanOutcome)
    ensures
        final(buf)@ == old(buf)@ + outcome_bytes(records(o.records@), skips(o.skipped@)),
{
    let ghost start = buf@;
    let ghost recs = records(o.records@);
    let ghost sk = skips(o.skipped@);
    put_le(buf, o.records.len() as u64, 8);
    put_records(buf, &o.records);
    put_le(buf, o.skipped.len() as u64, 4);
    put_skips(buf, &o.skipped);
    proof {
        let a = le_bytes(recs.len(), 8);
        let b = records_bytes(Seq::empty(), recs);
        let c = le_bytes(sk.len(), 4);
        let d = skips_bytes(sk);
        lemma_assoc(start + a + b, c, d);
        lemma_assoc(start + a, b, c + d);
        lemma_assoc(start, a, b + (c + d));
    }
}

fn payload_of(snap: &Snapshot) -> (r: Vec<u8>)
    ensures
        r@ == payload(snap@),
{
    let ghost v = snap@;
    let mut body: Vec<u8> = Vec::new();
    let ghost e = body@;
    put_str(&mut body, snap.meta.root.as_str());
    put_le(&mut body, snap.meta.excludes.len() as u64, 4);
    put_strs(&mut body, &snap.meta.excludes);
    put_le(&mut body, bits_of_i64(snap.meta.created_unix), 8);
    put_usn(&mut body, &snap.meta.usn);
    put_outcome(&mut body, &snap.outcome);
    proof {
        let a = str_bytes(v.root);
        let b = le_bytes(v.excludes.len(), 4);
        let c = strs_bytes(v.excludes);
        let d = le_bytes(i64_bits(v.created_unix), 8);
        let f = usn_bytes(v.usn);
        let g = outcome_bytes(v.records, v.skipped);
        assert(e + a =~= a);
        assert(body@ == a + b + c + d + f + g);
        lemma_assoc(a + b + c + d, f, g);
        lemma_assoc(a + b + c, d, f + g);
        lemma_assoc(a + b, c, d + (f + g));
        lemma_assoc(a, b, c + (d + (f + g)));
    }
    body
}

proof fn lemma_file_parts(digest: Seq<u8>, body: Seq<u8>, data: Seq<u8>)
    requires
        digest.len() == 32,
        digest == blake3_digest(body),
        data == magic() + le_bytes(FORMAT_VERSION as nat, 4) + digest + body,
    ensures
        intact(data),
        data.skip(40) == body,
{
    lemma_le_len(FORMAT_VERSION as nat, 4);
    lemma_pow256();
    crate::codec::lemma_le_roundtrip(FORMAT_VERSION as nat, 4);
    assert(data.take(4) =~= magic());
    assert(data.subrange(4, 8) =~= le_bytes(FORMAT_VERSION as nat, 4));
    assert(data.subrange(8, 40) =~= digest);
    assert(data.skip(40) =~= body);
}

/// The bytes of the snapshot file. Loading them gives the snapshot back,
/// unless a length does not fit its field or the records do not have the ids,
/// names and extensions that a scan gives them.
pub fn save(snap: &Snapshot) -> (r: Vec<u8>)
    ensures
        r@ == file_bytes(snap@),
        forall|style: PathStyle| #[trigger]
            faithful(style, snap@) ==> parsed(style, r@) == Some(snap@),
{
    let body: Vec<u8> = payload_of(snap);
    let hash: Vec<u8> = blake3_hash(&body);
    let mut out: Vec<u8> = Vec::new();
    out.push(0x43);
    out.push(0x4d);
    out.push(0x53);
    out.push(0x43);
    assert(out@ =~= magic());
    put_le(&mut out, FORMAT_VERSION as u64, 4);
    put_slice(&mut out, &hash);
    put_slice(&mut out, &body);
    proof {
        lemma_file_parts(hash@, body@, out@);
        assert forall|style: PathStyle| #[trigger] faithful(style, snap@) implies parsed(style, out@)
            == Some(snap@) by {
            law_payload_roundtrip(style, snap@);
        }
    }
    out
}

// ----------------------------------------------------------------- reading --
/// Recomputes the name and extension the walker derives at scan time.
pub fn derive_name_ext(style: PathStyle, path: &str, is_dir: bool) -> (r: (String, Option<String>))
    ensures
        r.0@ == derived_name(style, path@),
        opt_view(r.1) == derived_ext(style, path@, is_dir),
{
    let name: String = match file_name_of(style, path) {
        Some(n) => n,
        None => path.to_owned(),
    };
    let ext: Option<String> = if is_dir {
        None
    } else {
        match extension_of(style, path) {
            Some(e) => Some(to_lowercase(e.as_str())),
            None => None,
        }
    };
    (name, ext)
}

/// A list put in front of what the rest parses to.
spec fn behind<T>(done: Seq<T>, more: Option<(Seq<T>, Seq<u8>)>) -> Option<(Seq<T>, Seq<u8>)> {
    match more {
        None => None,
        Some((ts, end)) => Some((done + ts, end)),
    }
}

proof fn lemma_behind_push<T>(done: Seq<T>, x: T, more: Option<(Seq<T>, Seq<u8>)>)
    ensures
        behind(done, behind(seq![x], more)) == behind(done.push(x), more),
{
    match more {
        None => {},
        Some((ts, end)) => {
            assert(done + (seq![x] + ts) =~= done.push(x) + ts);
        },
    }
}

fn get_strs(rd: &mut Reader, n: u64) -> (r: Option<Vec<String>>)
    requires
        old(rd).wf(),
    ensures
        final(rd).wf(),
        final(rd).buf@ == old(rd).buf@,
        match r {
            Some(v) => take_strs(old(rd).rest(), n as nat) == Some((views(v@), final(rd).rest())),
            None => take_strs(old(rd).rest(), n as nat) is None,
        },
{
    let ghost goal = take_strs(rd.rest(), n as nat);
    let mut out: Vec<String> = Vec::new();
    let mut i: u64 = 0;
    proof {
        assert(views(out@) =~= Seq::empty());
        match goal {
            Some((ts, end)) => {
                assert(Seq::<Seq<char>>::empty() + ts =~= ts);
            },
            None => {},
        }
    }
    while i < n
        invariant
            i <= n,
            rd.wf(),
            rd.buf@ == old(rd).buf@,
            goal == take_strs(old(rd).rest(), n as nat),
            goal == behind(views(out@), take_strs(rd.rest(), (n - i) as nat)),
        decreases n - i,
    {
        let ghost so_far = views(out@);
        match rd.str() {
            None => return None,
            Some(t) => {
                proof {
                    lemma_behind_push(so_far, t@, take_strs(rd.rest(), (n - i - 1) as nat));
                }
                out.push(t);
                assert(views(out@) =~= so_far.push(t@));
            },
        }
        i += 1;
    }
    assert(views(out@) + Seq::empty() =~= views(out@));
    Some(out)
}

fn get_skip(rd: &mut Reader) -> (r: Option<SkippedPath>)
    requires
        old(rd).wf(),
    ensures
        final(rd).wf(),
        final(rd).buf@ == old(rd).buf@,
        match r {
            Some(s) => take_skip(old(rd).rest()) == Some((s@, final(rd).rest())),
            None => take_skip(old(rd).rest()) is None,
        },
{
    let path: String = match rd.str() {
        None => return None,
        Some(t) => t,
    };
    let reason: String = match rd.str() {
        None => return None,
        Some(t) => t,
    };
    Some(SkippedPath { path, reason })
}

fn get_skips(rd: &mut Reader, n: u64) -> (r: Option<Vec<SkippedPath>>)
    requires
        old(rd).wf(),
    ensures
        final(rd).wf(),
        final(rd).buf@ == old(rd).buf@,
        match r {
            Some(v) => take_skips(old(rd).rest(), n as nat) == Some((skips(v@), final(rd).rest())),
            None => take_skips(old(rd).rest(), n as nat) is None,
        },
{
    let ghost goal = take_skips(rd.rest(), n as nat);
    let mut out: Vec<SkippedPath> = Vec::new();
    let mut i: u64 = 0;
    proof {
        assert(skips(out@) =~= Seq::empty());
        match goal {
            Some((ts, end)) => {
                assert(Seq::<Skipped>::empty() + ts =~= ts);
            },
            None => {},
        }
    }
    while i < n
        invariant
            i <= n,
            rd.wf(),
            rd.buf@ == old(rd).buf@,
            goal == take_skips(old(rd).rest(), n as nat),
            goal == behind(skips(out@), take_skips(rd.rest(), (n - i) as nat)),
        decreases n - i,
    {
        let ghost so_far = skips(out@);
        match get_skip(rd) {
            None => return None,
            Some(t) => {
                proof {
                    lemma_behind_push(so_far, t@, take_skips(rd.rest(), (n - i - 1) as nat));
                }
                out.push(t);
                assert(skips(out@) =~= so_far.push(t@));
            },
        }
        i += 1;
    }
    assert(skips(out@) + Seq::empty() =~= skips(out@));
    Some(out)
}

fn get_usn(rd: &mut Reader) -> (r: Option<Option<UsnCheckpoint>>)
    requires
        old(rd).wf(),
    ensures
        final(rd).wf(),
        final(rd).buf@ == old(rd).buf@,
        match r {
            Some(u) => take_usn(old(rd).rest()) == Some((u, final(rd).rest())),
            None => take_usn(old(rd).rest()) is None,
        },
{
    proof {
        lemma_pow256();
    }
    let tag: u64 = match rd.number(1) {
        None => return None,
        Some(n) => n,
    };
    if tag == 0 {
        return Some(None);
    }
    if tag != 1 {
        return None;
    }
    let journal_id: u64 = match rd.number(8) {
        None => return None,
        Some(n) => n,
    };
    let next: u64 = match rd.number(8) {
        None => return None,
        Some(n) => n,
    };
    let serial: u64 = match rd.number(4) {
        None => return None,
        Some(n) => n,
    };
    Some(
        Some(
            UsnCheckpoint {
                journal_id,
                next_usn: i64_from_bits(next),
                volume_serial: serial as u32,
            },
        ),
    )
}

fn get_numbers(style: PathStyle, path: String, id: u64, rd: &mut Reader) -> (r: Option<FileRecord>)
    requires
        old(rd).wf(),
    ensures
        final(rd).wf(),
        final(rd).buf@ == old(rd).buf@,
        match r {
            Some(f) => take_numbers(style, path@, id as nat, old(rd).rest()) == Some(
                (f@, final(rd).rest()),
            ),
            None => take_numbers(style, path@, id as nat, old(rd).rest()) is None,
        },
{
    proof {
        lemma_pow256();
    }
    let size: u64 = match rd.number(8) {
        None => return None,
        Some(n) => n,
    };
    let created: u64 = match rd.number(8) {
        None => return None,
        Some(n) => n,
    };
    let modified: u64 = match rd.number(8) {
        None => return None,
        Some(n) => n,
    };
    let accessed: u64 = match rd.number(8) {
        None => return None,
        Some(n) => n,
    };
    let dir: u64 = match rd.number(1) {
        None => return None,
        Some(n) => n,
    };
    if dir > 1 {
        return None;
    }
    let attributes: u64 = match rd.number(4) {
        None => return None,
        Some(n) => n,
    };
    let (name, ext) = derive_name_ext(style, path.as_str(), dir == 1);
    Some(
        FileRecord {
            id,
            path,
            name,
            ext,
            size,
            created: i64_from_bits(created),
            modified: i64_from_bits(modified),
            accessed: i64_from_bits(accessed),
            is_dir: dir == 1,
            attributes: attributes as u32,
        },
    )
}

fn get_record(style: PathStyle, prev: &str, id: u64, rd: &mut Reader) -> (r: Option<FileRecord>)
    requires
        old(rd).wf(),
    ensures
        final(rd).wf(),
        final(rd).buf@ == old(rd).buf@,
        match r {
            Some(f) => take_record(style, prev@, id as nat, old(rd).rest()) == Some(
                (f@, final(rd).rest()),
            ),
            None => take_record(style, prev@, id as nat, old(rd).rest()) is None,
        },
{
    proof {
        lemma_pow256();
        encode_utf8_valid_utf8(prev@);
    }
    let n: u64 = match rd.number(2) {
        None => return None,
        Some(n) => n,
    };
    let shared: usize = n as usize;
    if shared > prev.as_bytes().len() || !prev.is_char_boundary(shared) {
        return None;
    }
    let (kept, _) = prev.split_at(shared);
    proof {
        encode_utf8_decode_utf8(kept@);
        assert(encode_utf8(kept@) =~= encode_utf8(prev@).take(shared as int));
    }
    let rest: String = match rd.str() {
        None => return None,
        Some(t) => t,
    };
    let path: String = crate::text::join2(kept, rest.as_str());
    get_numbers(style, path, id, rd)
}

fn get_records(style: PathStyle, rd: &mut Reader, n: u64) -> (r: Option<Vec<FileRecord>>)
    requires
        old(rd).wf(),
    ensures
        final(rd).wf(),
        final(rd).buf@ == old(rd).buf@,
        match r {
            Some(v) => take_records(style, Seq::empty(), 0, n as nat, old(rd).rest()) == Some(
                (records(v@), final(rd).rest()),
            ),
            None => take_records(style, Seq::empty(), 0, n as nat, old(rd).rest()) is None,
        },
{
    let ghost goal = take_records(style, Seq::empty(), 0, n as nat, rd.rest());
    let mut out: Vec<FileRecord> = Vec::new();
    let mut i: u64 = 0;
    proof {
        assert(records(out@) =~= Seq::empty());
        match goal {
            Some((ts, end)) => {
                assert(Seq::<Record>::empty() + ts =~= ts);
            },
            None => {},
        }
    }
    while i < n
        invariant
            i <= n,
            rd.wf(),
            rd.buf@ == old(rd).buf@,
            goal == take_records(style, Seq::empty(), 0, n as nat, old(rd).rest()),
            out@.len() == i,
            goal == behind(
                records(out@),
                take_records(
                    style,
                    if i == 0 {
                        Seq::empty()
                    } else {
                        out@[i - 1].path@
                    },
                    i as nat,
                    (n - i) as nat,
                    rd.rest(),
                ),
            ),
        decreases n - i,
    {
        let ghost so_far = records(out@);
        let empty: String = String::new();
        assert(empty@ =~= Seq::empty());
        let prev: &str = if out.len() == 0 {
            empty.as_str()
        } else {
            out[out.len() - 1].path.as_str()
        };
        match get_record(style, prev, i, rd) {
            None => return None,
            Some(t) => {
                proof {
                    lemma_behind_push(
                        so_far,
                        t@,
                        take_records(style, t.path@, (i + 1) as nat, (n - i - 1) as nat, rd.rest()),
                    );
                }
                out.push(t);
                assert(records(out@) =~= so_far.push(t@));
            },
        }
        i += 1;
    }
    assert(records(out@) + Seq::empty() =~= records(out@));
    Some(out)
}

fn get_outcome(style: PathStyle, rd: &mut Reader) -> (r: Option<ScanOutcome>)
    requires
        old(rd).wf(),
    ensures
        match r {
            Some(o) => parsed_outcome(style, old(rd).rest()) == Some(
                (records(o.records@), skips(o.skipped@)),
            ),
            None => parsed_outcome(style, old(rd).rest()) is None,
        },
{
    let n: u64 = match rd.number(8) {
        None => return None,
        Some(n) => n,
    };
    let recs: Vec<FileRecord> = match get_records(style, rd, n) {
        None => return None,
        Some(v) => v,
    };
    let m: u64 = match rd.number(4) {
        None => return None,
        Some(n) => n,
    };
    let skipped: Vec<SkippedPath> = match get_skips(rd, m) {
        None => return None,
        Some(v) => v,
    };
    if rd.pos != rd.buf.len() {
        return None;
    }
    Some(ScanOutcome { records: recs, skipped })
}

/// Reads the bytes of a snapshot file. Anything but an intact file of this
/// format version gives `None`.
pub fn load(style: PathStyle, data: &[u8]) -> (r: Option<Snapshot>)
    ensures
        match r {
            Some(s) => parsed(style, data@) == Some(s@),
            None => parsed(style, data@) is None,
        },
{
    if data.len() < 40 {
        return None;
    }
    if !(data[0] == 0x43 && data[1] == 0x4d && data[2] == 0x53 && data[3] == 0x43) {
        proof {
            if data@.take(4) == magic() {
                assert(data@.take(4)[0] == 0x43u8 && data@.take(4)[1] == 0x4du8 && data@.take(4)[2]
                    == 0x53u8 && data@.take(4)[3] == 0x43u8);
            }
        }
        return None;
    }
    assert(data@.take(4) =~= magic());
    if get_le(data, 4, 8) != FORMAT_VERSION as u64 {
        return None;
    }
    let body: &[u8] = vstd::slice::slice_subrange(data, 40, data.len());
    assert(body@ =~= data@.skip(40));
    let hash: Vec<u8> = blake3_hash(body);
    let mut i: usize = 0;
    while i < 32
        invariant
            i <= 32,
            hash@.len() == 32,
            hash@ == blake3_digest(data@.skip(40)),
            data@.len() >= 40,
            forall|k: int| 0 <= k < i ==> hash@[k] == data@[8 + k],
        decreases 32 - i,
    {
        if hash[i] != data[8 + i] {
            assert(data@.subrange(8, 40)[i as int] == data@[8 + i]);
            return None;
        }
        i += 1;
    }
    assert(data@.subrange(8, 40) =~= hash@);
    let mut rd: Reader = Reader { buf: body, pos: 0 };
    assert(rd.rest() =~= body@);
    let root: String = match rd.str() {
        None => return None,
        Some(t) => t,
    };
    let n: u64 = match rd.number(4) {
        None => return None,
        Some(n) => n,
    };
    let excludes: Vec<String> = match get_strs(&mut rd, n) {
        None => return None,
        Some(v) => v,
    };
    let created: u64 = match rd.number(8) {
        None => return None,
        Some(n) => n,
    };
    let usn: Option<UsnCheckpoint> = match get_usn(&mut rd) {
        None => return None,
        Some(u) => u,
    };
    let outcome: ScanOutcome = match get_outcome(style, &mut rd) {
        None => return None,
        Some(o) => o,
    };
    Some(
        Snapshot {
            meta: SnapshotMeta { root, excludes, created_unix: i64_from_bits(created), usn },
            outcome,
        },
    )
}

// ------------------------------------------------------------- cache files --
/// A zero byte and the UTF-8 bytes of each pattern, one after the other.
pub open spec fn excludes_key(excludes: Seq<Seq<char>>) -> Seq<u8>
    decreases excludes.len(),
{
    if excludes.len() == 0 {
        Seq::empty()
    } else {
        excludes_key(excludes.drop_last()) + seq![0u8] + encode_utf8(excludes.last())
    }
}

/// What identifies one (root, excludes) request. The case of the root does not
/// count.
pub open spec fn cache_key(root: Seq<char>, excludes: Seq<Seq<char>>) -> Seq<u8> {
    encode_utf8(lowercase(root)) + excludes_key(excludes)
}

/// The name under which a request is kept.
pub open spec fn cache_name(root: Seq<char>, excludes: Seq<Seq<char>>) -> Seq<char> {
    hex_text(blake3_digest(cache_key(root, excludes))).take(24) + ".cmsc"@
}

/// Stable cache file name for one (root, excludes) request.
pub fn cache_file(root: &str, excludes: &Vec<String>) -> (r: String)
    ensures
        r@ == hex_text(blake3_digest(cache_key(root@, views(excludes@)))).take(24) + ".cmsc"@,
        r@ == cache_name(root@, views(excludes@)),
{
    let lower: String = to_lowercase(root);
    let mut hasher: ContentHasher = ContentHasher::new();
    hasher.update(lower.as_str().as_bytes());
    let ghost start = encode_utf8(lowercase(root@));
    let ghost all = views(excludes@);
    assert(hasher.fed() =~= start);
    assert(all.take(0) =~= Seq::empty());
    assert(start + excludes_key(all.take(0)) =~= start);
    let zero: Vec<u8> = vec![0u8];
    assert(zero@ =~= seq![0u8]);
    let mut i: usize = 0;
    while i < excludes.len()
        invariant
            i <= excludes@.len(),
            all == views(excludes@),
            zero@ == seq![0u8],
            hasher.fed() == start + excludes_key(all.take(i as int)),
        decreases excludes@.len() - i,
    {
        hasher.update(&zero);
        hasher.update(excludes[i].as_str().as_bytes());
        i += 1;
        assert(all.take(i as int).drop_last() =~= all.take(i - 1));
        assert(hasher.fed() =~= start + excludes_key(all.take(i as int)));
    }
    assert(all.take(i as int) =~= all);
    let digest: Vec<u8> = hasher.finish();
    let text: String = hex(&digest);
    proof {
        lemma_hex_len(digest@);
    }
    let cs: Vec<char> = chars_of(text.as_str());
    let head: String = string_of(&cs, 0, 24);
    assert(head@ =~= text@.take(24));
    join2(head.as_str(), ".cmsc")
}

/// No zero character.
pub open spec fn no_zero(s: Seq<char>) -> bool {
    forall|i: int| 0 <= i < s.len() ==> #[trigger] s[i] != '\0'
}

proof fn lemma_scalar_no_zero(c: char)
    requires
        c != '\0',
    ensures
        !encode_scalar(c as u32).contains(0u8),
{
    let n = c as u32;
    assert(n != 0);
    assert(n <= 0x7f && n != 0 ==> (n & 0x7F) as u8 != 0) by (bit_vector);
    assert((0xC0 | ((n >> 6) & 0x1F) as u8) != 0) by (bit_vector);
    assert((0xE0 | ((n >> 12) & 0x0F) as u8) != 0) by (bit_vector);
    assert((0xF0 | ((n >> 18) & 0x7) as u8) != 0) by (bit_vector);
    assert((0x80 | (n & 0x3F) as u8) != 0) by (bit_vector);
    assert((0x80 | ((n >> 6) & 0x3F) as u8) != 0) by (bit_vector);
    assert((0x80 | ((n >> 12) & 0x3F) as u8) != 0) by (bit_vector);
}

/// Text without a zero character has no zero byte.
proof fn lemma_utf8_no_zero(s: Seq<char>)
    requires
        no_zero(s),
    ensures
        !encode_utf8(s).contains(0u8),
    decreases s.len(),
{
    if s.len() > 0 {
        lemma_scalar_no_zero(s[0]);
        assert(no_zero(s.drop_first())) by {
            assert forall|i: int| 0 <= i < s.drop_first().len() implies #[trigger] s.drop_first()[i]
                != '\0' by {
                assert(s[i + 1] != '\0');
            }
        }
        lemma_utf8_no_zero(s.drop_first());
        let a = encode_scalar(s[0] as u32);
        let b = encode_utf8(s.drop_first());
        assert forall|i: int| 0 <= i < (a + b).len() implies (a + b)[i] != 0u8 by {
            if i < a.len() {
                assert(a.contains(a[i]));
            } else {
                assert(b.contains(b[i - a.len()]));
            }
        }
    }
}

/// The last zero byte splits a sequence in one way.
proof fn lemma_split_last_zero(x: Seq<u8>, y: Seq<u8>, a: Seq<u8>, b: Seq<u8>)
    requires
        x + seq![0u8] + a == y + seq![0u8] + b,
        !a.contains(0u8),
        !b.contains(0u8),
    ensures
        x == y,
        a == b,
{
    let l = x + seq![0u8] + a;
    let r = y + seq![0u8] + b;
    assert(l.len() == x.len() + 1 + a.len());
    assert(r.len() == y.len() + 1 + b.len());
    assert(l[x.len() as int] == 0u8);
    assert(r[y.len() as int] == 0u8);
    if a.len() < b.len() {
        assert(r[x.len() as int] == b[x.len() - y.len() - 1]);
        assert(b.contains(b[x.len() - y.len() - 1]));
    }
    if b.len() < a.len() {
        assert(l[y.len() as int] == a[y.len() - x.len() - 1]);
        assert(a.contains(a[y.len() - x.len() - 1]));
    }
    assert(x =~= l.take(x.len() as int));
    assert(y =~= r.take(y.len() as int));
    assert(a =~= l.skip(x.len() as int + 1));
    assert(b =~= r.skip(y.len() as int + 1));
}

/// Two requests have the same key only if they ask for the same: the same root
/// up to case, and the same excludes in the same order. (No path or pattern
/// holds a zero character.)
pub proof fn law_cache_key_identifies_request(
    r1: Seq<char>,
    e1: Seq<Seq<char>>,
    r2: Seq<char>,
    e2: Seq<Seq<char>>,
)
    requires
        no_zero(lowercase(r1)),
        no_zero(lowercase(r2)),
        forall|i: int| 0 <= i < e1.len() ==> no_zero(#[trigger] e1[i]),
        forall|i: int| 0 <= i < e2.len() ==> no_zero(#[trigger] e2[i]),
    ensures
        cache_key(r1, e1) == cache_key(r2, e2) <==> (lowercase(r1) == lowercase(r2) && e1 == e2),
    decreases e1.len(),
{
    let a = encode_utf8(lowercase(r1));
    let b = encode_utf8(lowercase(r2));
    lemma_utf8_no_zero(lowercase(r1));
    lemma_utf8_no_zero(lowercase(r2));
    encode_utf8_decode_utf8(lowercase(r1));
    encode_utf8_decode_utf8(lowercase(r2));
    if cache_key(r1, e1) == cache_key(r2, e2) {
        if e1.len() > 0 && e2.len() > 0 {
            let f = e1.drop_last();
            let g = e2.drop_last();
            assert(no_zero(e1.last()) && no_zero(e2.last()));
            lemma_utf8_no_zero(e1.last());
            lemma_utf8_no_zero(e2.last());
            encode_utf8_decode_utf8(e1.last());
            encode_utf8_decode_utf8(e2.last());
            assert(a + (excludes_key(f) + seq![0u8] + encode_utf8(e1.last())) =~= (a
                + excludes_key(f)) + seq![0u8] + encode_utf8(e1.last()));
            assert(b + (excludes_key(g) + seq![0u8] + encode_utf8(e2.last())) =~= (b
                + excludes_key(g)) + seq![0u8] + encode_utf8(e2.last()));
            lemma_split_last_zero(
                a + excludes_key(f),
                b + excludes_key(g),
                encode_utf8(e1.last()),
                encode_utf8(e2.last()),
            );
            assert forall|i: int| 0 <= i < f.len() implies no_zero(#[trigger] f[i]) by {
                assert(f[i] == e1[i]);
            }
            assert forall|i: int| 0 <= i < g.len() implies no_zero(#[trigger] g[i]) by {
                assert(g[i] == e2[i]);
            }
            law_cache_key_identifies_request(r1, f, r2, g);
            assert(e1 =~= f.push(e1.last()));
            assert(e2 =~= g.push(e2.last()));
        } else if e1.len() == 0 && e2.len() == 0 {
            assert(cache_key(r1, e1) =~= a);
            assert(cache_key(r2, e2) =~= b);
            assert(e1 =~= e2);
        } else if e1.len() > 0 {
            let p = excludes_key(e1.drop_last());
            let k = cache_key(r1, e1);
            assert(k[a.len() + p.len() as int] == 0u8);
            assert(k =~= b);
            assert(b.contains(b[a.len() + p.len() as int]));
        } else {
            let p = excludes_key(e2.drop_last());
            let k = cache_key(r2, e2);
            assert(k[b.len() + p.len() as int] == 0u8);
            assert(k =~= a);
            assert(a.contains(a[b.len() + p.len() as int]));
        }
    }
}

/// A file in the cache directory and when it was last written: any number
/// that grows with the time.
pub struct CachedFile {
    pub path: String,
    pub modified: u64,
}

/// Only files with the snapshot extension are snapshots.
pub open spec fn is_snapshot(style: PathStyle) -> spec_fn(CachedFile) -> bool {
    |f: CachedFile| extension(style, f.path@) == Some("cmsc"@)
}

/// Newest first.
pub open spec fn newest_first(v: Seq<CachedFile>) -> Seq<(u64, Seq<char>)> {
    v.map_values(|f: CachedFile| (descending(f.modified), Seq::<char>::empty()))
}

/// The paths of cached files.
pub open spec fn file_paths(v: Seq<CachedFile>) -> Seq<Seq<char>> {
    v.map_values(|f: CachedFile| f.path@)
}

/// `gone` is what is left of the snapshots, newest first, behind the first
/// `keep`.
pub open spec fn pruned(
    style: PathStyle,
    files: Seq<CachedFile>,
    keep: nat,
    gone: Seq<Seq<char>>,
) -> bool {
    let snaps = files.filter(is_snapshot(style));
    exists|sorted: Seq<CachedFile>| #[trigger]
        is_sorted_copy(snaps, newest_first(snaps), sorted) && gone == if keep < sorted.len() {
            file_paths(sorted.skip(keep as int))
        } else {
            Seq::empty()
        }
}

/// The files to delete so that only the `keep` most recently modified
/// snapshots stay. Files that are not snapshots are left alone.
pub fn prune(style: PathStyle, files: Vec<CachedFile>, keep: usize) -> (r: Vec<String>)
    ensures
        pruned(style, files@, keep as nat, views(r@)),
{
    let ghost all = files@;
    let ghost p = is_snapshot(style);
    let mut snaps: Vec<CachedFile> = Vec::new();
    let mut keys: Vec<SortKey> = Vec::new();
    let mut i: usize = 0;
    proof {
        lemma_filter_ends(all, p);
    }
    while i < files.len()
        invariant
            i <= files@.len(),
            all == files@,
            p == is_snapshot(style),
            snaps@ == all.take(i as int).filter(p),
            keys@.len() == snaps@.len(),
            key_views(keys@) == newest_first(snaps@),
        decreases files@.len() - i,
    {
        let ghost so_far = snaps@;
        let ghost keys_so_far = keys@;
        let f: &CachedFile = &files[i];
        let is_snap: bool = match extension_of(style, f.path.as_str()) {
            Some(e) => crate::text::same(e.as_str(), "cmsc"),
            None => false,
        };
        proof {
            lemma_filter_take(all, p, i as int);
            assert(is_snap == p(all[i as int]));
        }
        if is_snap {
            let none: Vec<char> = Vec::new();
            assert(none@ =~= Seq::empty());
            keys.push(SortKey { rank: rank_descending(f.modified), name: none });
            snaps.push(CachedFile { path: f.path.clone(), modified: f.modified });
            assert(snaps@.last().path@ == all[i as int].path@);
            assert(snaps@ =~= so_far.push(all[i as int]));
            assert(key_views(keys@) =~= key_views(keys_so_far).push(keys@.last()@));
            assert(newest_first(snaps@) =~= newest_first(so_far).push(keys@.last()@));
        }
        i += 1;
    }
    let ghost kept = snaps@;
    assert(kept == all.filter(p));
    let sorted: Vec<CachedFile> = sort_by_keys(snaps, &keys);
    let mut out: Vec<String> = Vec::new();
    let mut k: usize = if keep < sorted.len() {
        keep
    } else {
        sorted.len()
    };
    let ghost from = k as int;
    while k < sorted.len()
        invariant
            from <= k <= sorted@.len(),
            0 <= from,
            views(out@) == file_paths(sorted@.subrange(from, k as int)),
        decreases sorted@.len() - k,
    {
        let ghost so_far = views(out@);
        out.push(sorted[k].path.clone());
        k += 1;
        assert(views(out@) =~= so_far.push(sorted@[k - 1].path@));
        assert(views(out@) =~= file_paths(sorted@.subrange(from, k as int)));
    }
    assert(sorted@.subrange(from, sorted@.len() as int) =~= sorted@.skip(from));
    assert(is_sorted_copy(kept, newest_first(kept), sorted@));
    proof {
        if keep < sorted@.len() {
            assert(views(out@) == file_paths(sorted@.skip(keep as int)));
        } else {
            assert(views(out@) =~= Seq::empty());
        }
        assert(pruned(style, files@, keep as nat, views(out@)));
    }
    out
}

/// Pruning splits the snapshots in two: those that stay, at most `keep`, and
/// those that go, and none that goes is newer than one that stays. Nothing goes
/// while fewer than `keep` stay.
pub proof fn law_prune_keeps_the_newest(
    style: PathStyle,
    files: Seq<CachedFile>,
    keep: nat,
    gone: Seq<Seq<char>>,
)
    requires
        pruned(style, files, keep, gone),
    ensures
        exists|stay: Seq<CachedFile>, go: Seq<CachedFile>| #[trigger]
            (stay + go).to_multiset() == files.filter(is_snapshot(style)).to_multiset() && gone
                == file_paths(go) && stay.len() <= keep && (go.len() > 0 ==> stay.len() == keep)
                && forall|i: int, j: int|
                0 <= i < stay.len() && 0 <= j < go.len() ==> (#[trigger] stay[i]).modified >= (
                #[trigger] go[j]).modified,
{
    let snaps = files.filter(is_snapshot(style));
    let keys = newest_first(snaps);
    let sorted = choose|sorted: Seq<CachedFile>| #[trigger]
        is_sorted_copy(snaps, keys, sorted) && gone == if keep < sorted.len() {
            file_paths(sorted.skip(keep as int))
        } else {
            Seq::empty()
        };
    lemma_sorted_copy_items(snaps, keys, sorted);
    let p = choose|p: Seq<usize>| is_stable_order(keys, p) && #[trigger] permuted(snaps, p, sorted);
    let n: int = if keep < sorted.len() {
        keep as int
    } else {
        sorted.len() as int
    };
    let stay = sorted.take(n);
    let go = sorted.skip(n);
    assert(stay + go =~= sorted);
    assert(gone =~= file_paths(go));
    assert forall|i: int, j: int| 0 <= i < stay.len() && 0 <= j < go.len() implies (
    #[trigger] stay[i]).modified >= (#[trigger] go[j]).modified by {
        let (a, b) = (p[i] as int, p[n + j] as int);
        assert(before(keys, a, b));
        assert(stay[i] == snaps[a] && go[j] == snaps[b]);
        assert(keys[a].0 == descending(snaps[a].modified));
        assert(keys[b].0 == descending(snaps[b].modified));
    }
}

} // verus!
