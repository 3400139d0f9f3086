//! Duplicate files: a funnel of size, head/tail hash and full BLAKE3 hash.
//!
//! The caller reads the files and hands in the hashes; a file that could not
//! be read has none and drops out. A group is only ever formed from files with
//! the same full hash.
use crate::digest::{
    blake3_digest, hex, hex_text, is_hex_char, lemma_hex_chars, lemma_hex_injective, ContentHasher,
};
use crate::index::{
    as_ints, distinct_keys, lemma_distinct_keys, lemma_positions, positions, Index,
};
use crate::lists::lemma_filter_take;
use crate::order::{
    descending, is_sorted_copy, is_stable_order, key_views, permuted, rank_descending,
    sort_by_keys, SortKey,
};
use crate::paths::{is_under, under, PathStyle};
use crate::report::ref_records;
use crate::scanner::path_keys;
use crate::text::{
    chars_of, decimal, decimal_of, is_digit, lemma_bar_split, lemma_decimal_value,
    lemma_lex_total, lemma_lex_trans, less_chars, lex_lt, views,
};
use crate::types::{records, FileRecord, Record};
use vstd::prelude::*;

verus! {

/// 1 MiB.
pub const DEFAULT_MIN_SIZE: u64 = 1_048_576;

#[derive(Debug)]
pub struct DupeOptions {
    /// Files smaller than this are ignored (dedup value is negligible).
    pub min_size: u64,
    /// Directory prefixes in priority order; the surviving copy is chosen from
    /// the highest-priority location first.
    pub keep_priority: Vec<String>,
}

impl Default for DupeOptions {
    fn default() -> (r: Self)
        ensures
            r.min_size == DEFAULT_MIN_SIZE,
            r.keep_priority@.len() == 0,
    {
        DupeOptions { min_size: DEFAULT_MIN_SIZE, keep_priority: Vec::new() }
    }
}

/// A set of content-identical files (full BLAKE3 verified).
#[derive(Debug)]
pub struct DupeGroup {
    /// Hex BLAKE3 of the full content.
    pub hash: String,
    pub size: u64,
    /// Always >= 2 members.
    pub members: Vec<FileRecord>,
    /// Index into `members` of the copy that should survive.
    pub suggested_keep: usize,
}

impl DupeGroup {
    /// Two or more members, one of which is the keeper, and a waste that fits a
    /// machine number.
    pub open spec fn wf(&self) -> bool {
        &&& self.members@.len() >= 2
        &&& self.has_keeper()
        &&& self.size * (self.members@.len() - 1) <= u64::MAX
    }

    /// The keeper is one of the members.
    pub open spec fn has_keeper(&self) -> bool {
        self.suggested_keep < self.members@.len()
    }

    /// Members that may be deleted. This can never contain every member: the
    /// suggested keeper is always excluded (business rule: one copy always
    /// survives).
    pub fn deletable(&self) -> (r: Vec<&FileRecord>)
        requires
            self.has_keeper(),
        ensures
            ref_records(r@) == records(self.members@).remove(self.suggested_keep as int),
            r@.len() < self.members@.len(),
    {
        let ghost all = records(self.members@);
        let ghost keep = self.suggested_keep as int;
        let mut out: Vec<&FileRecord> = Vec::new();
        let mut i: usize = 0;
        while i < self.members.len()
            invariant
                i <= self.members@.len(),
                all == records(self.members@),
                keep == self.suggested_keep,
                keep < all.len(),
                ref_records(out@) == if i <= keep {
                    all.take(i as int)
                } else {
                    all.remove(keep).take(i - 1)
                },
            decreases self.members@.len() - i,
        {
            let ghost before = out@;
            if i != self.suggested_keep {
                out.push(&self.members[i]);
                assert(ref_records(out@) =~= ref_records(before).push(all[i as int]));
            }
            i += 1;
            proof {
                if i <= keep {
                    assert(all.take(i as int) =~= all.take(i - 1).push(all[i - 1]));
                } else if i == keep + 1 {
                    assert(all.remove(keep).take(keep) =~= all.take(keep));
                } else {
                    assert(all.remove(keep).take(i - 1) =~= all.remove(keep).take(i - 2).push(
                        all[i - 1],
                    ));
                }
            }
        }
        assert(all.remove(keep).take(all.len() - 1) =~= all.remove(keep));
        assert(ref_records(out@).len() == out@.len());
        out
    }

    /// Bytes reclaimable if all deletable members are removed.
    pub fn wasted_bytes(&self) -> (r: u64)
        requires
            self.members@.len() >= 1,
            self.size * (self.members@.len() - 1) <= u64::MAX,
        ensures
            r == self.size * (self.members@.len() - 1),
    {
        self.size * (self.members.len() as u64 - 1)
    }
}

// ------------------------------------------------------------------ hashes --
pub const PARTIAL_CHUNK: usize = 4096;

/// The tail is hashed too where head and tail do not overlap.
pub open spec fn hashes_tail(size: u64) -> bool {
    size > 8192
}

/// Whether the last 4 KiB of a file of this size have to be read.
pub fn wants_tail(size: u64) -> (r: bool)
    ensures
        r == hashes_tail(size),
{
    size > (PARTIAL_CHUNK * 2) as u64
}

/// Hash of first and last 4 KiB - cheap discriminator before full hashing.
pub fn partial_hash(size: u64, head: &[u8], tail: &[u8]) -> (r: Vec<u8>)
    ensures
        r@ == blake3_digest(
            if hashes_tail(size) {
                head@ + tail@
            } else {
                head@
            },
        ),
        r@.len() == 32,
{
    let mut hasher: ContentHasher = ContentHasher::new();
    hasher.update(head);
    assert(hasher.fed() =~= head@);
    if wants_tail(size) {
        hasher.update(tail);
    }
    hasher.finish()
}

// ------------------------------------------------------------------- model --
/// The views of a list of optional hashes.
pub open spec fn hash_view(h: Option<Vec<u8>>) -> Option<Seq<u8>> {
    match h {
        Some(v) => Some(v@),
        None => None,
    }
}

/// A record is looked at: a file of at least the minimum size.
pub open spec fn candidate(r: Record, min_size: u64) -> bool {
    !r.is_dir && r.size >= min_size
}

/// What a size bucket is called.
pub open spec fn size_name(size: u64) -> Seq<char> {
    decimal(size as nat)
}

/// The bucket of each record by size.
pub open spec fn size_buckets(recs: Seq<Record>, min_size: u64) -> Seq<Option<Seq<char>>> {
    recs.map_values(
        |r: Record|
            if candidate(r, min_size) {
                Some(size_name(r.size))
            } else {
                None
            },
    )
}

/// The bucket of a record by size and head/tail hash.
pub open spec fn partial_name(size: u64, partial: Seq<u8>) -> Seq<char> {
    size_name(size) + seq!['|'] + hex_text(partial)
}

/// The bucket of a record by size, head/tail hash and full hash.
pub open spec fn full_name(size: u64, partial: Seq<u8>, full: Seq<u8>) -> Seq<char> {
    partial_name(size, partial) + seq!['|'] + hex_text(full)
}

/// The bucket of each record that has a head/tail hash.
pub open spec fn partial_buckets(
    recs: Seq<Record>,
    min_size: u64,
    partial: Seq<Option<Vec<u8>>>,
) -> Seq<Option<Seq<char>>> {
    Seq::new(
        recs.len(),
        |i: int|
            match (candidate(recs[i], min_size), hash_view(partial[i])) {
                (true, Some(p)) => Some(partial_name(recs[i].size, p)),
                _ => None,
            },
    )
}

/// The bucket of each record that has both hashes.
pub open spec fn full_buckets(
    recs: Seq<Record>,
    min_size: u64,
    partial: Seq<Option<Vec<u8>>>,
    full: Seq<Option<Vec<u8>>>,
) -> Seq<Option<Seq<char>>> {
    Seq::new(
        recs.len(),
        |i: int|
            match (candidate(recs[i], min_size), hash_view(partial[i]), hash_view(full[i])) {
                (true, Some(p), Some(f)) => Some(full_name(recs[i].size, p, f)),
                _ => None,
            },
    )
}

/// Not alone in its bucket.
pub open spec fn shares_bucket(buckets: Seq<Option<Seq<char>>>, i: int) -> bool {
    buckets[i] matches Some(k) && positions(buckets, k).len() >= 2
}

/// `out` lists the positions that share a bucket, ascending.
pub open spec fn sharing(buckets: Seq<Option<Seq<char>>>, out: Seq<usize>) -> bool {
    &&& forall|k: int|
        0 <= k < out.len() ==> (#[trigger] out[k]) < buckets.len() && shares_bucket(
            buckets,
            out[k] as int,
        )
    &&& forall|k: int, l: int| 0 <= k < l < out.len() ==> (#[trigger] out[k]) < (#[trigger] out[l])
    &&& forall|i: int|
        0 <= i < buckets.len() && #[trigger] shares_bucket(buckets, i) ==> exists|k: int|
            0 <= k < out.len() && #[trigger] out[k] == i
}

fn collect_sharing(index: &Index, keys: &Vec<Option<String>>) -> (r: Vec<usize>)
    requires
        index.wf(),
        index.keys() == keys@.map_values(|k: Option<String>| crate::paths::opt_view(k)),
    ensures
        sharing(index.keys(), r@),
{
    let ghost buckets = index.keys();
    let mut out: Vec<usize> = Vec::new();
    let mut i: usize = 0;
    while i < keys.len()
        invariant
            i <= keys@.len() == buckets.len(),
            index.wf(),
            buckets == index.keys(),
            buckets == keys@.map_values(|k: Option<String>| crate::paths::opt_view(k)),
            forall|k: int|
                0 <= k < out@.len() ==> (#[trigger] out@[k]) < i && shares_bucket(
                    buckets,
                    out@[k] as int,
                ),
            forall|k: int, l: int|
                0 <= k < l < out@.len() ==> (#[trigger] out@[k]) < (#[trigger] out@[l]),
            forall|j: int|
                0 <= j < i && #[trigger] shares_bucket(buckets, j) ==> exists|k: int|
                    0 <= k < out@.len() && #[trigger] out@[k] == j,
        decreases keys@.len() - i,
    {
        let ghost before = out@;
        assert(buckets[i as int] == crate::paths::opt_view(keys@[i as int]));
        let shared: bool = match &keys[i] {
            Some(k) => {
                let at: Vec<usize> = index.find(k.as_str());
                assert(as_ints(at@).len() == at@.len());
                at.len() >= 2
            },
            None => false,
        };
        assert(shared == shares_bucket(buckets, i as int));
        if shared {
            out.push(i);
        }
        proof {
            assert forall|j: int| 0 <= j < i + 1 && #[trigger] shares_bucket(buckets, j) implies exists|
                k: int,
            |
                0 <= k < out@.len() && #[trigger] out@[k] == j by {
                if j < i {
                    let k = choose|k: int| 0 <= k < before.len() && #[trigger] before[k] == j;
                    assert(out@[k] == j);
                } else {
                    assert(out@[out@.len() - 1] == i);
                }
            }
        }
        i += 1;
    }
    out
}

/// An index over optional names.
fn index_of(keys: &Vec<Option<String>>) -> (r: Index)
    requires
        keys@.len() < usize::MAX,
    ensures
        r.wf(),
        r.keys() == keys@.map_values(|k: Option<String>| crate::paths::opt_view(k)),
{
    let ghost all = keys@.map_values(|k: Option<String>| crate::paths::opt_view(k));
    let mut index: Index = Index::new();
    let mut i: usize = 0;
    assert(all.take(0) =~= Seq::empty());
    while i < keys.len()
        invariant
            i <= keys@.len() < usize::MAX,
            all == keys@.map_values(|k: Option<String>| crate::paths::opt_view(k)),
            index.wf(),
            index.keys() == all.take(i as int),
        decreases keys@.len() - i,
    {
        match &keys[i] {
            Some(k) => {
                index.add(Some(k.as_str()));
            },
            None => {
                index.add(None);
            },
        }
        i += 1;
        assert(all.take(i as int) =~= all.take(i - 1).push(all[i - 1]));
    }
    assert(all.take(i as int) =~= all);
    index
}

/// Stage A: the records whose head and tail have to be hashed - files of the
/// minimum size that are not the only ones of their size.
pub fn needs_partial(recs: &Vec<FileRecord>, opts: &DupeOptions) -> (r: Vec<usize>)
    requires
        recs@.len() < usize::MAX,
    ensures
        sharing(size_buckets(records(recs@), opts.min_size), r@),
{
    let ghost goal = size_buckets(records(recs@), opts.min_size);
    let mut keys: Vec<Option<String>> = Vec::new();
    let mut i: usize = 0;
    while i < recs.len()
        invariant
            i <= recs@.len(),
            goal == size_buckets(records(recs@), opts.min_size),
            keys@.len() == i,
            forall|k: int|
                0 <= k < i ==> crate::paths::opt_view(#[trigger] keys@[k]) == goal[k],
        decreases recs@.len() - i,
    {
        let rec: &FileRecord = &recs[i];
        let key: Option<String> = if !rec.is_dir && rec.size >= opts.min_size {
            Some(decimal_of(rec.size))
        } else {
            None
        };
        keys.push(key);
        i += 1;
    }
    let index: Index = index_of(&keys);
    assert(index.keys() =~= goal);
    collect_sharing(&index, &keys)
}

/// Stage B: the records whose full content has to be hashed - those that share
/// size and head/tail hash with another.
pub fn needs_full(recs: &Vec<FileRecord>, opts: &DupeOptions, partial: &Vec<Option<Vec<u8>>>) -> (r:
    Vec<usize>)
    requires
        recs@.len() == partial@.len(),
        recs@.len() < usize::MAX,
    ensures
        sharing(partial_buckets(records(recs@), opts.min_size, partial@), r@),
{
    let ghost goal = partial_buckets(records(recs@), opts.min_size, partial@);
    let mut keys: Vec<Option<String>> = Vec::new();
    let mut i: usize = 0;
    while i < recs.len()
        invariant
            i <= recs@.len() == partial@.len(),
            goal == partial_buckets(records(recs@), opts.min_size, partial@),
            keys@.len() == i,
            forall|k: int|
                0 <= k < i ==> crate::paths::opt_view(#[trigger] keys@[k]) == goal[k],
        decreases recs@.len() - i,
    {
        let rec: &FileRecord = &recs[i];
        let key: Option<String> = if !rec.is_dir && rec.size >= opts.min_size {
            match &partial[i] {
                Some(p) => Some(partial_key(rec.size, p)),
                None => None,
            }
        } else {
            None
        };
        keys.push(key);
        i += 1;
    }
    let index: Index = index_of(&keys);
    assert(index.keys() =~= goal);
    collect_sharing(&index, &keys)
}

fn partial_key(size: u64, partial: &Vec<u8>) -> (r: String)
    ensures
        r@ == partial_name(size, partial@),
{
    let mut key: String = decimal_of(size);
    key.push('|');
    key.push_str(hex(partial).as_str());
    assert(key@ =~= partial_name(size, partial@));
    key
}

fn full_key(size: u64, partial: &Vec<u8>, full: &Vec<u8>) -> (r: String)
    ensures
        r@ == full_name(size, partial@, full@),
{
    let mut key: String = partial_key(size, partial);
    key.push('|');
    key.push_str(hex(full).as_str());
    assert(key@ =~= full_name(size, partial@, full@));
    key
}

// ------------------------------------------------------------- the keeper --
/// The number of the first directory of the list that holds the path, or the
/// largest number where none does.
pub open spec fn rank_from(style: PathStyle, path: Seq<char>, dirs: Seq<Seq<char>>, i: int) -> int
    decreases dirs.len() - i,
{
    if i >= dirs.len() || i < 0 {
        usize::MAX as int
    } else if under(style, path, dirs[i]) {
        i
    } else {
        rank_from(style, path, dirs, i + 1)
    }
}

/// Seconds of the creation time, or of the last change where that is unknown.
pub open spec fn record_age(r: Record) -> i64 {
    if r.created != 0 {
        r.created
    } else {
        r.modified
    }
}

/// By priority, then by age, then by path: the lower one is kept.
pub open spec fn score(style: PathStyle, r: Record, dirs: Seq<Seq<char>>) -> (int, i64, Seq<char>) {
    (rank_from(style, r.path, dirs, 0), record_age(r), r.path)
}

pub open spec fn score_lt(a: (int, i64, Seq<char>), b: (int, i64, Seq<char>)) -> bool {
    a.0 < b.0 || (a.0 == b.0 && (a.1 < b.1 || (a.1 == b.1 && lex_lt(a.2, b.2))))
}

/// `keep` is the first of the records with the lowest score.
pub open spec fn is_keeper(
    style: PathStyle,
    recs: Seq<Record>,
    dirs: Seq<Seq<char>>,
    keep: int,
) -> bool {
    &&& 0 <= keep < recs.len()
    &&& forall|j: int|
        0 <= j < recs.len() ==> !score_lt(
            score(style, #[trigger] recs[j], dirs),
            score(style, recs[keep], dirs),
        )
    &&& forall|j: int|
        0 <= j < keep ==> score_lt(
            score(style, recs[keep], dirs),
            score(style, #[trigger] recs[j], dirs),
        )
}

pub fn keep_score(style: PathStyle, record: &FileRecord, priority: &Vec<String>) -> (r: (
    usize,
    i64,
    String,
))
    ensures
        (r.0 as int, r.1, r.2@) == score(style, record@, views(priority@)),
{
    let ghost dirs = views(priority@);
    let mut rank: usize = usize::MAX;
    let mut i: usize = 0;
    let mut found: bool = false;
    while i < priority.len() && !found
        invariant
            i <= priority@.len(),
            dirs == views(priority@),
            !found ==> rank == usize::MAX && rank_from(style, record@.path, dirs, 0) == rank_from(
                style,
                record@.path,
                dirs,
                i as int,
            ),
            found ==> rank_from(style, record@.path, dirs, 0) == rank,
        decreases priority@.len() - i,
    {
        if is_under(style, record.path.as_str(), priority[i].as_str()) {
            rank = i;
            found = true;
        }
        i += 1;
    }
    let age: i64 = if record.created != 0 {
        record.created
    } else {
        record.modified
    };
    (rank, age, record.path.clone())
}

fn score_less(a: &(usize, i64, String), b: &(usize, i64, String)) -> (r: bool)
    ensures
        r == score_lt((a.0 as int, a.1, a.2@), (b.0 as int, b.1, b.2@)),
{
    if a.0 != b.0 {
        a.0 < b.0
    } else if a.1 != b.1 {
        a.1 < b.1
    } else {
        less_chars(&chars_of(a.2.as_str()), &chars_of(b.2.as_str()))
    }
}

proof fn lemma_score_order(a: (int, i64, Seq<char>), b: (int, i64, Seq<char>), c: (int, i64, Seq<char>))
    ensures
        score_lt(a, b) && score_lt(b, c) ==> score_lt(a, c),
        score_lt(a, b) && !score_lt(c, b) ==> score_lt(a, c),
        !score_lt(a, a),
{
    if a.0 == b.0 && a.1 == b.1 && lex_lt(a.2, b.2) && lex_lt(b.2, c.2) {
        lemma_lex_trans(a.2, b.2, c.2);
    }
    lemma_lex_total(a.2, a.2);
    lemma_lex_total(b.2, c.2);
}

/// Which of the members should survive.
pub fn choose_keep(style: PathStyle, members: &Vec<FileRecord>, priority: &Vec<String>) -> (r: usize)
    requires
        members@.len() > 0,
    ensures
        is_keeper(style, records(members@), views(priority@), r as int),
{
    let ghost recs = records(members@);
    let ghost dirs = views(priority@);
    let mut best: usize = 0;
    let mut low: (usize, i64, String) = keep_score(style, &members[0], priority);
    let mut i: usize = 1;
    proof {
        lemma_score_order(score(style, recs[0], dirs), score(style, recs[0], dirs), score(style, recs[0], dirs));
    }
    while i < members.len()
        invariant
            best < i <= members@.len(),
            recs == records(members@),
            dirs == views(priority@),
            (low.0 as int, low.1, low.2@) == score(style, recs[best as int], dirs),
            forall|j: int|
                0 <= j < i ==> !score_lt(
                    score(style, #[trigger] recs[j], dirs),
                    score(style, recs[best as int], dirs),
                ),
            forall|j: int|
                0 <= j < best ==> score_lt(
                    score(style, recs[best as int], dirs),
                    score(style, #[trigger] recs[j], dirs),
                ),
        decreases members@.len() - i,
    {
        let next: (usize, i64, String) = keep_score(style, &members[i], priority);
        assert(recs[i as int] == members@[i as int]@);
        if score_less(&next, &low) {
            proof {
                let x = score(style, recs[i as int], dirs);
                let y = score(style, recs[best as int], dirs);
                assert forall|j: int| 0 <= j < i implies score_lt(
                    x,
                    score(style, #[trigger] recs[j], dirs),
                ) by {
                    lemma_score_order(x, y, score(style, recs[j], dirs));
                }
                assert forall|j: int| 0 <= j < i + 1 implies !score_lt(
                    score(style, #[trigger] recs[j], dirs),
                    x,
                ) by {
                    let z = score(style, recs[j], dirs);
                    lemma_score_order(x, z, x);
                    lemma_score_order(x, x, x);
                }
            }
            best = i;
            low = next;
        }
        i += 1;
    }
    best
}

// ------------------------------------------------------------------ groups --
/// Buckets with two or more records.
pub open spec fn crowded(buckets: Seq<Option<Seq<char>>>) -> spec_fn(Seq<char>) -> bool {
    |k: Seq<char>| positions(buckets, k).len() >= 2
}

/// The names of the buckets with two or more records, in the order in which
/// they come first.
pub open spec fn dupe_keys(buckets: Seq<Option<Seq<char>>>) -> Seq<Seq<char>> {
    distinct_keys(buckets).filter(crowded(buckets))
}

/// The records at the given positions.
pub open spec fn records_at(recs: Seq<Record>, pos: Seq<int>) -> Seq<Record> {
    pos.map_values(|i: int| recs[i])
}

/// `g` is the group of the records at the positions `pos`.
pub open spec fn group_of(
    style: PathStyle,
    recs: Seq<Record>,
    full: Seq<Option<Vec<u8>>>,
    dirs: Seq<Seq<char>>,
    pos: Seq<int>,
    g: DupeGroup,
) -> bool {
    &&& g.size == recs[pos[0]].size
    &&& hash_view(full[pos[0]]) matches Some(h) && g.hash@ == hex_text(h)
    &&& is_sorted_copy(
        records_at(recs, pos),
        path_keys(records_at(recs, pos)),
        records(g.members@),
    )
    &&& is_keeper(style, records(g.members@), dirs, g.suggested_keep as int)
}

/// Groups with the most to gain come first, then by hash.
pub open spec fn group_keys(v: Seq<DupeGroup>) -> Seq<(u64, Seq<char>)> {
    v.map_values(
        |g: DupeGroup| (descending((g.size * (g.members@.len() - 1)) as u64), g.hash@),
    )
}

/// One group for each bucket with two or more records.
pub open spec fn groups_of(
    style: PathStyle,
    recs: Seq<Record>,
    buckets: Seq<Option<Seq<char>>>,
    full: Seq<Option<Vec<u8>>>,
    dirs: Seq<Seq<char>>,
    raw: Seq<DupeGroup>,
) -> bool {
    &&& raw.len() == dupe_keys(buckets).len()
    &&& forall|j: int|
        0 <= j < raw.len() ==> group_of(
            style,
            recs,
            full,
            dirs,
            positions(buckets, dupe_keys(buckets)[j]),
            #[trigger] raw[j],
        )
}

/// The bytes to gain in each bucket fit a machine number.
pub open spec fn waste_fits(recs: Seq<Record>, buckets: Seq<Option<Seq<char>>>) -> bool {
    forall|k: Seq<char>|
        (#[trigger] positions(buckets, k)).len() >= 2 ==> recs[positions(buckets, k)[0]].size * (
        positions(buckets, k).len() - 1) <= u64::MAX
}

fn build_group(
    style: PathStyle,
    recs: &Vec<FileRecord>,
    at: &Vec<usize>,
    hash: &Vec<u8>,
    priority: &Vec<String>,
) -> (r: DupeGroup)
    requires
        at@.len() >= 1,
        forall|k: int| 0 <= k < at@.len() ==> (#[trigger] at@[k]) < recs@.len(),
    ensures
        r.size == recs@[at@[0] as int].size,
        r.hash@ == hex_text(hash@),
        r.members@.len() == at@.len(),
        is_sorted_copy(
            records_at(records(recs@), as_ints(at@)),
            path_keys(records_at(records(recs@), as_ints(at@))),
            records(r.members@),
        ),
        is_keeper(style, records(r.members@), views(priority@), r.suggested_keep as int),
{
    let ghost wanted = records_at(records(recs@), as_ints(at@));
    let mut members: Vec<FileRecord> = Vec::new();
    let mut keys: Vec<SortKey> = Vec::new();
    let mut i: usize = 0;
    while i < at.len()
        invariant
            i <= at@.len(),
            wanted == records_at(records(recs@), as_ints(at@)),
            forall|k: int| 0 <= k < at@.len() ==> (#[trigger] at@[k]) < recs@.len(),
            members@.len() == i,
            keys@.len() == i,
            forall|k: int| 0 <= k < i ==> (#[trigger] members@[k])@ == wanted[k],
            forall|k: int| 0 <= k < i ==> (#[trigger] keys@[k])@ == (0u64, wanted[k].path),
        decreases at@.len() - i,
    {
        let rec: &FileRecord = &recs[at[i]];
        assert(wanted[i as int] == rec@);
        members.push(rec.clone());
        keys.push(SortKey { rank: 0, name: chars_of(rec.path.as_str()) });
        i += 1;
    }
    assert(records(members@) =~= wanted);
    assert(key_views(keys@) =~= path_keys(wanted));
    let ghost raw = members@;
    let sorted: Vec<FileRecord> = sort_by_keys(members, &keys);
    proof {
        let p = choose|p: Seq<usize>|
            is_stable_order(key_views(keys@), p) && #[trigger] permuted(raw, p, sorted@);
        assert(permuted(wanted, p, records(sorted@)));
    }
    let keep: usize = choose_keep(style, &sorted, priority);
    DupeGroup { hash: hex(hash), size: recs[at[0]].size, members: sorted, suggested_keep: keep }
}

/// Stage C: groups of files with the same size, head/tail hash and full hash.
/// `partial` and `full` hold the hashes of each record; records that were not
/// hashed, or could not be read, have none.
pub fn find_duplicates(
    style: PathStyle,
    recs: &Vec<FileRecord>,
    opts: &DupeOptions,
    partial: &Vec<Option<Vec<u8>>>,
    full: &Vec<Option<Vec<u8>>>,
) -> (r: Vec<DupeGroup>)
    requires
        recs@.len() == partial@.len() == full@.len(),
        recs@.len() < usize::MAX,
        waste_fits(
            records(recs@),
            full_buckets(records(recs@), opts.min_size, partial@, full@),
        ),
    ensures
        exists|raw: Seq<DupeGroup>|
            groups_of(
                style,
                records(recs@),
                full_buckets(records(recs@), opts.min_size, partial@, full@),
                full@,
                views(opts.keep_priority@),
                raw,
            ) && #[trigger] is_sorted_copy(raw, group_keys(raw), r@),
        forall|i: int| 0 <= i < r@.len() ==> (#[trigger] r@[i]).wf(),
{
    let ghost goal = full_buckets(records(recs@), opts.min_size, partial@, full@);
    let ghost all = records(recs@);
    let ghost dirs = views(opts.keep_priority@);
    let mut keys: Vec<Option<String>> = Vec::new();
    let mut i: usize = 0;
    while i < recs.len()
        invariant
            i <= recs@.len(),
            recs@.len() == partial@.len() == full@.len(),
            goal == full_buckets(records(recs@), opts.min_size, partial@, full@),
            keys@.len() == i,
            forall|k: int|
                0 <= k < i ==> crate::paths::opt_view(#[trigger] keys@[k]) == goal[k],
        decreases recs@.len() - i,
    {
        let rec: &FileRecord = &recs[i];
        let key: Option<String> = if !rec.is_dir && rec.size >= opts.min_size {
            match (&partial[i], &full[i]) {
                (Some(p), Some(f)) => Some(full_key(rec.size, p, f)),
                _ => None,
            }
        } else {
            None
        };
        keys.push(key);
        i += 1;
    }
    let index: Index = index_of(&keys);
    assert(index.keys() =~= goal);
    let ghost names = distinct_keys(goal);
    let ghost busy = crowded(goal);
    let n: usize = index.len();
    let mut groups: Vec<DupeGroup> = Vec::new();
    let mut order: Vec<SortKey> = Vec::new();
    let mut s: usize = 0;
    assert(names.take(0).filter(busy) =~= Seq::empty()) by {
        reveal(Seq::filter);
    }
    while s < n
        invariant
            s <= n == names.len(),
            recs@.len() == partial@.len() == full@.len() == goal.len(),
            index.wf(),
            index.keys() == goal,
            names == distinct_keys(goal),
            busy == crowded(goal),
            all == records(recs@),
            dirs == views(opts.keep_priority@),
            goal == full_buckets(all, opts.min_size, partial@, full@),
            waste_fits(all, goal),
            groups@.len() == names.take(s as int).filter(busy).len(),
            forall|j: int|
                0 <= j < groups@.len() ==> group_of(
                    style,
                    all,
                    full@,
                    dirs,
                    positions(goal, names.take(s as int).filter(busy)[j]),
                    #[trigger] groups@[j],
                ) && groups@[j].wf(),
            key_views(order@) == group_keys(groups@),
        decreases n - s,
    {
        let at: Vec<usize> = index.group(s);
        let ghost key = names[s as int];
        let ghost pos = positions(goal, key);
        let ghost before = groups@;
        let ghost ordered = order@;
        proof {
            lemma_positions(goal, key);
            lemma_distinct_keys(goal);
            lemma_filter_take(names, busy, s as int);
            assert(as_ints(at@).len() == at@.len());
        }
        if at.len() >= 2 {
            assert forall|k: int| 0 <= k < at@.len() implies (#[trigger] at@[k]) < recs@.len() by {
                assert(as_ints(at@)[k] == at@[k]);
                assert(pos[k] == at@[k]);
            }
            assert(pos[0] == as_ints(at@)[0]);
            assert(goal[pos[0]] == Some(key));
            let ghost first = at@[0] as int;
            match &full[at[0]] {
                Some(hash) => {
                    let g: DupeGroup = build_group(style, recs, &at, hash, &opts.keep_priority);
                    assert(group_of(style, all, full@, dirs, pos, g));
                    assert(g.size == all[pos[0]].size);
                    let waste: u64 = g.wasted_bytes();
                    order.push(
                        SortKey { rank: rank_descending(waste), name: chars_of(g.hash.as_str()) },
                    );
                    groups.push(g);
                    assert(key_views(order@) =~= key_views(ordered).push(order@.last()@));
                    assert(group_keys(groups@) =~= group_keys(before).push(
                        group_keys(groups@).last(),
                    ));
                },
                None => {
                    assert(false);
                },
            }
        }
        s += 1;
    }
    assert(names.take(n as int) =~= names);
    let ghost raw = groups@;
    assert(groups_of(style, all, goal, full@, dirs, raw));
    let out: Vec<DupeGroup> = sort_by_keys(groups, &order);
    proof {
        let p = choose|p: Seq<usize>|
            is_stable_order(group_keys(raw), p) && #[trigger] permuted(raw, p, out@);
        assert forall|i: int| 0 <= i < out@.len() implies (#[trigger] out@[i]).wf() by {
            assert(out@[i] == raw[p[i] as int]);
        }
    }
    out
}

// -------------------------------------------------------------------- laws --
proof fn lemma_size_name(a: u64, b: u64)
    ensures
        size_name(a) == size_name(b) ==> a == b,
        forall|i: int| 0 <= i < size_name(a).len() ==> #[trigger] size_name(a)[i] != '|',
{
    lemma_decimal_value(a as nat);
    lemma_decimal_value(b as nat);
    assert forall|i: int| 0 <= i < size_name(a).len() implies #[trigger] size_name(a)[i] != '|' by {
        assert(is_digit(size_name(a)[i]));
    }
}

proof fn lemma_full_name(a: u64, p: Seq<u8>, f: Seq<u8>, b: u64, q: Seq<u8>, g: Seq<u8>)
    requires
        full_name(a, p, f) == full_name(b, q, g),
    ensures
        a == b,
        p == q,
        f == g,
{
    lemma_size_name(a, b);
    lemma_size_name(b, a);
    lemma_hex_chars(p);
    lemma_hex_chars(q);
    let x = hex_text(p) + seq!['|'] + hex_text(f);
    let y = hex_text(q) + seq!['|'] + hex_text(g);
    assert(full_name(a, p, f) =~= size_name(a) + seq!['|'] + x);
    assert(full_name(b, q, g) =~= size_name(b) + seq!['|'] + y);
    lemma_bar_split(size_name(a), x, size_name(b), y);
    assert forall|i: int| 0 <= i < hex_text(p).len() implies #[trigger] hex_text(p)[i] != '|' by {
        assert(is_hex_char(hex_text(p)[i]));
    }
    assert forall|i: int| 0 <= i < hex_text(q).len() implies #[trigger] hex_text(q)[i] != '|' by {
        assert(is_hex_char(hex_text(q)[i]));
    }
    lemma_bar_split(hex_text(p), hex_text(f), hex_text(q), hex_text(g));
    lemma_hex_injective(p, q);
    lemma_hex_injective(f, g);
}

/// Two records share a bucket of the last stage if and only if both are files
/// of the minimum size that could be read, with the same size, the same
/// head/tail hash and the same full hash.
pub proof fn law_groups_hold_identical_content(
    recs: Seq<Record>,
    min_size: u64,
    partial: Seq<Option<Vec<u8>>>,
    full: Seq<Option<Vec<u8>>>,
    i: int,
    j: int,
)
    requires
        recs.len() == partial.len() == full.len(),
        0 <= i < recs.len(),
        0 <= j < recs.len(),
    ensures
        (full_buckets(recs, min_size, partial, full)[i] is Some && full_buckets(
            recs,
            min_size,
            partial,
            full,
        )[i] == full_buckets(recs, min_size, partial, full)[j]) <==> (candidate(recs[i], min_size)
            && candidate(recs[j], min_size) && recs[i].size == recs[j].size && hash_view(
            partial[i],
        ) is Some && hash_view(partial[i]) == hash_view(partial[j]) && hash_view(full[i]) is Some
            && hash_view(full[i]) == hash_view(full[j])),
{
    let b = full_buckets(recs, min_size, partial, full);
    if b[i] is Some && b[i] == b[j] {
        lemma_full_name(
            recs[i].size,
            hash_view(partial[i])->0,
            hash_view(full[i])->0,
            recs[j].size,
            hash_view(partial[j])->0,
            hash_view(full[j])->0,
        );
    }
}

/// Sharing a bucket means that another record has the same key.
pub proof fn lemma_shares(buckets: Seq<Option<Seq<char>>>, i: int)
    requires
        0 <= i < buckets.len(),
    ensures
        shares_bucket(buckets, i) <==> buckets[i] is Some && exists|j: int|
            0 <= j < buckets.len() && j != i && #[trigger] buckets[j] == buckets[i],
{
    if buckets[i] is Some {
        let k = buckets[i]->0;
        let pos = positions(buckets, k);
        lemma_positions(buckets, k);
        assert(pos.contains(i));
        if pos.len() >= 2 {
            let j = if pos[0] == i {
                pos[1]
            } else {
                pos[0]
            };
            assert(buckets[j] == buckets[i]);
        }
        if exists|j: int|
            0 <= j < buckets.len() && j != i && #[trigger] buckets[j] == buckets[i] {
            let j = choose|j: int|
                0 <= j < buckets.len() && j != i && #[trigger] buckets[j] == buckets[i];
            assert(pos.contains(j));
            let a = choose|a: int| 0 <= a < pos.len() && pos[a] == i;
            let c = choose|c: int| 0 <= c < pos.len() && pos[c] == j;
            assert(a != c);
        }
    }
}

/// The funnel loses nothing: a record that ends up in a group is hashed at
/// every stage.
pub proof fn law_funnel_keeps_duplicates(
    recs: Seq<Record>,
    min_size: u64,
    partial: Seq<Option<Vec<u8>>>,
    full: Seq<Option<Vec<u8>>>,
    i: int,
)
    requires
        recs.len() == partial.len() == full.len(),
        0 <= i < recs.len(),
        shares_bucket(full_buckets(recs, min_size, partial, full), i),
    ensures
        shares_bucket(partial_buckets(recs, min_size, partial), i),
        shares_bucket(size_buckets(recs, min_size), i),
{
    let c = full_buckets(recs, min_size, partial, full);
    let b = partial_buckets(recs, min_size, partial);
    let a = size_buckets(recs, min_size);
    lemma_shares(c, i);
    let j = choose|j: int| 0 <= j < c.len() && j != i && #[trigger] c[j] == c[i];
    law_groups_hold_identical_content(recs, min_size, partial, full, i, j);
    assert(b[j] == b[i] && b[i] is Some);
    assert(a[j] == a[i] && a[i] is Some);
    lemma_shares(b, i);
    lemma_shares(a, i);
}

/// No record is in two groups.
pub proof fn law_groups_are_disjoint(
    buckets: Seq<Option<Seq<char>>>,
    k: Seq<char>,
    l: Seq<char>,
    i: int,
)
    requires
        positions(buckets, k).contains(i),
        positions(buckets, l).contains(i),
    ensures
        k == l,
{
    lemma_positions(buckets, k);
    lemma_positions(buckets, l);
    let a = choose|a: int| 0 <= a < positions(buckets, k).len() && positions(buckets, k)[a] == i;
    let b = choose|b: int| 0 <= b < positions(buckets, l).len() && positions(buckets, l)[b] == i;
    assert(buckets[positions(buckets, k)[a]] == Some(k));
    assert(buckets[positions(buckets, l)[b]] == Some(l));
}

} // verus!
