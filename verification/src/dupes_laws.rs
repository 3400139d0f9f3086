//! What a group of duplicates is, and which of its members is kept, in terms of
//! the records themselves.
use crate::digest::hex_text;
use crate::dupes::{
    crowded, dupe_keys, full_buckets, group_keys, group_of, groups_of, hash_view, hashes_tail,
    is_keeper, law_groups_hold_identical_content, lemma_shares, rank_from, records_at, score,
    score_lt, sharing, size_buckets, DupeGroup,
};
use crate::index::{distinct_keys, lemma_distinct_keys, lemma_positions, positions};
use crate::order::{descending, is_sorted_copy, law_sorted_copy_is_ascending};
use crate::paths::{under, PathStyle};
use crate::scanner::path_keys;
use crate::text::{lemma_lex_total, lex_lt};
use crate::types::{records, Record};
use vstd::prelude::*;

verus! {

// ------------------------------------------------------------- the keeper --
/// `d` is the first of the preferred directories that holds the path; their
/// number where none does.
pub open spec fn home_is(style: PathStyle, path: Seq<char>, dirs: Seq<Seq<char>>, d: int) -> bool {
    &&& 0 <= d <= dirs.len()
    &&& forall|e: int| 0 <= e < d ==> !under(style, path, #[trigger] dirs[e])
    &&& d < dirs.len() ==> under(style, path, dirs[d])
}

proof fn lemma_rank_is_home(style: PathStyle, path: Seq<char>, dirs: Seq<Seq<char>>, d: int, i: int)
    requires
        home_is(style, path, dirs, d),
        0 <= i <= d,
    ensures
        rank_from(style, path, dirs, i) == if d < dirs.len() {
            d
        } else {
            usize::MAX as int
        },
    decreases d - i,
{
    if i < d {
        assert(!under(style, path, dirs[i]));
        lemma_rank_is_home(style, path, dirs, d, i + 1);
    }
}

proof fn lemma_scores(style: PathStyle, recs: Seq<Record>, dirs: Seq<Seq<char>>, keep: int, j: int)
    requires
        is_keeper(style, recs, dirs, keep),
        0 <= j < recs.len(),
    ensures
        !score_lt(score(style, recs[j], dirs), score(style, recs[keep], dirs)),
{
}

/// The keeper comes from the most preferred place: no member lies in a directory
/// that stands before the first one that holds the keeper.
pub proof fn law_keeper_is_in_the_best_place(
    style: PathStyle,
    recs: Seq<Record>,
    dirs: Seq<Seq<char>>,
    keep: int,
    j: int,
    kept: int,
    other: int,
)
    requires
        is_keeper(style, recs, dirs, keep),
        dirs.len() <= usize::MAX,
        0 <= j < recs.len(),
        home_is(style, recs[keep].path, dirs, kept),
        home_is(style, recs[j].path, dirs, other),
    ensures
        kept <= other,
{
    lemma_scores(style, recs, dirs, keep, j);
    lemma_rank_is_home(style, recs[keep].path, dirs, kept, 0);
    lemma_rank_is_home(style, recs[j].path, dirs, other, 0);
}

/// Among the members in the same place the oldest is kept: none of those whose
/// creation time is known was created before it. Where the file system does not
/// report a creation time, the time of the last change stands for it.
pub proof fn law_keeper_is_the_oldest(
    style: PathStyle,
    recs: Seq<Record>,
    dirs: Seq<Seq<char>>,
    keep: int,
    j: int,
    home: int,
)
    requires
        is_keeper(style, recs, dirs, keep),
        0 <= j < recs.len(),
        home_is(style, recs[keep].path, dirs, home),
        home_is(style, recs[j].path, dirs, home),
    ensures
        recs[keep].created != 0 && recs[j].created != 0 ==> recs[keep].created <= recs[j].created,
        recs[keep].created != 0 && recs[j].created == 0 ==> recs[keep].created <= recs[j].modified,
        recs[keep].created == 0 && recs[j].created != 0 ==> recs[keep].modified <= recs[j].created,
        recs[keep].created == 0 && recs[j].created == 0 ==> recs[keep].modified <= recs[j].modified,
{
    lemma_scores(style, recs, dirs, keep, j);
    lemma_rank_is_home(style, recs[keep].path, dirs, home, 0);
    lemma_rank_is_home(style, recs[j].path, dirs, home, 0);
}

/// Among members of the same age in the same place, the one whose path comes
/// first is kept.
pub proof fn law_keeper_has_the_first_path(
    style: PathStyle,
    recs: Seq<Record>,
    dirs: Seq<Seq<char>>,
    keep: int,
    j: int,
    home: int,
)
    requires
        is_keeper(style, recs, dirs, keep),
        0 <= j < recs.len(),
        home_is(style, recs[keep].path, dirs, home),
        home_is(style, recs[j].path, dirs, home),
        recs[keep].created == recs[j].created,
        recs[keep].created == 0 ==> recs[keep].modified == recs[j].modified,
    ensures
        !lex_lt(recs[j].path, recs[keep].path),
        recs[j].path == recs[keep].path ==> keep <= j,
{
    lemma_scores(style, recs, dirs, keep, j);
    lemma_rank_is_home(style, recs[keep].path, dirs, home, 0);
    lemma_rank_is_home(style, recs[j].path, dirs, home, 0);
    lemma_lex_total(recs[j].path, recs[keep].path);
    if j < keep {
        assert(score_lt(score(style, recs[keep], dirs), score(style, recs[j], dirs)));
    }
}

// ----------------------------------------------------------------- hashes --
/// Head and tail are hashed together exactly where they are apart: a tail of
/// 4096 bytes starts after a head of 4096 bytes ends.
pub proof fn law_head_and_tail_are_apart(size: u64)
    ensures
        hashes_tail(size) <==> size - 4096 > 4096,
{
}

// ----------------------------------------------------------------- groups --
/// Two files with the same content, as far as it can be told: neither a
/// directory, both of the minimum size, of equal size, equal head/tail hash and
/// equal full hash.
pub open spec fn same_content(
    recs: Seq<Record>,
    min_size: u64,
    partial: Seq<Option<Vec<u8>>>,
    full: Seq<Option<Vec<u8>>>,
    i: int,
    j: int,
) -> bool {
    &&& !recs[i].is_dir && !recs[j].is_dir
    &&& recs[i].size >= min_size
    &&& recs[i].size == recs[j].size
    &&& hash_view(partial[i]) is Some && hash_view(partial[i]) == hash_view(partial[j])
    &&& hash_view(full[i]) is Some && hash_view(full[i]) == hash_view(full[j])
}

/// The group holds this record.
pub open spec fn group_holds(g: DupeGroup, r: Record) -> bool {
    records(g.members@).contains(r)
}

/// The record at `i` is a member of a group as it should be: a file of at least
/// the minimum size, of the group's size and with the group's hash.
pub open spec fn belongs(
    recs: Seq<Record>,
    min_size: u64,
    full: Seq<Option<Vec<u8>>>,
    g: DupeGroup,
    i: int,
) -> bool {
    &&& !recs[i].is_dir
    &&& recs[i].size >= min_size
    &&& recs[i].size == g.size
    &&& hash_view(full[i]) matches Some(h) && g.hash@ == hex_text(h)
}

/// The member is one of the scanned records that belongs to the group.
pub open spec fn is_scanned(
    recs: Seq<Record>,
    min_size: u64,
    full: Seq<Option<Vec<u8>>>,
    g: DupeGroup,
    r: Record,
) -> bool {
    exists|i: int|
        0 <= i < recs.len() && #[trigger] recs[i] == r && belongs(recs, min_size, full, g, i)
}

proof fn lemma_members_of(
    style: PathStyle,
    recs: Seq<Record>,
    full: Seq<Option<Vec<u8>>>,
    dirs: Seq<Seq<char>>,
    pos: Seq<int>,
    g: DupeGroup,
)
    requires
        group_of(style, recs, full, dirs, pos, g),
    ensures
        g.members@.len() == pos.len(),
        forall|r: Record| #[trigger]
            records(g.members@).contains(r) <==> records_at(recs, pos).contains(r),
{
    let m = records_at(recs, pos);
    law_sorted_copy_is_ascending(
        m,
        |r: Record| (0u64, r.path),
        path_keys(m),
        records(g.members@),
    );
    assert(records(g.members@).len() == g.members@.len());
}

/// What `find_duplicates` returns holds nothing but duplicates: every member of
/// every group is a scanned file of at least the minimum size, with the size and
/// the hash of its group, and a group has two members or more.
pub proof fn law_groups_hold_duplicates_only(
    style: PathStyle,
    recs: Seq<Record>,
    min_size: u64,
    partial: Seq<Option<Vec<u8>>>,
    full: Seq<Option<Vec<u8>>>,
    dirs: Seq<Seq<char>>,
    raw: Seq<DupeGroup>,
    out: Seq<DupeGroup>,
    g: int,
    m: int,
)
    requires
        recs.len() == partial.len() == full.len(),
        groups_of(style, recs, full_buckets(recs, min_size, partial, full), full, dirs, raw),
        is_sorted_copy(raw, group_keys(raw), out),
        0 <= g < out.len(),
        0 <= m < out[g].members@.len(),
    ensures
        out[g].members@.len() >= 2,
        is_scanned(recs, min_size, full, out[g], records(out[g].members@)[m]),
{
    let buckets = full_buckets(recs, min_size, partial, full);
    lemma_out_of_raw(raw, out);
    assert(out.contains(out[g]));
    let a = choose|a: int| 0 <= a < raw.len() && raw[a] == out[g];
    let key = dupe_keys(buckets)[a];
    let pos = positions(buckets, key);
    lemma_keys_are_crowded(buckets, a);
    lemma_positions(buckets, key);
    assert(group_of(style, recs, full, dirs, pos, raw[a]));
    lemma_members_of(style, recs, full, dirs, pos, raw[a]);
    let r = records(out[g].members@)[m];
    assert(records(out[g].members@).contains(r));
    let k = choose|k: int| 0 <= k < records_at(recs, pos).len() && records_at(recs, pos)[k] == r;
    let i = pos[k];
    assert(buckets[i] == Some(key) && buckets[pos[0]] == Some(key));
    law_groups_hold_identical_content(recs, min_size, partial, full, i, pos[0]);
    assert(recs[i] == r && belongs(recs, min_size, full, out[g], i));
}

proof fn lemma_out_of_raw(raw: Seq<DupeGroup>, out: Seq<DupeGroup>)
    requires
        is_sorted_copy(raw, group_keys(raw), out),
    ensures
        forall|g: DupeGroup| #[trigger] out.contains(g) <==> raw.contains(g),
{
    law_sorted_copy_is_ascending(
        raw,
        |g: DupeGroup| (descending((g.size * (g.members@.len() - 1)) as u64), g.hash@),
        group_keys(raw),
        out,
    );
}

proof fn lemma_keys_are_crowded(buckets: Seq<Option<Seq<char>>>, a: int)
    requires
        0 <= a < dupe_keys(buckets).len(),
    ensures
        positions(buckets, dupe_keys(buckets)[a]).len() >= 2,
{
    crate::lists::lemma_filter_ends(distinct_keys(buckets), crowded(buckets));
    assert(crowded(buckets)(dupe_keys(buckets)[a]));
}

/// `find_duplicates` misses nothing: two files with the same content are members
/// of one group.
pub proof fn law_every_duplicate_is_in_a_group(
    style: PathStyle,
    recs: Seq<Record>,
    min_size: u64,
    partial: Seq<Option<Vec<u8>>>,
    full: Seq<Option<Vec<u8>>>,
    dirs: Seq<Seq<char>>,
    raw: Seq<DupeGroup>,
    out: Seq<DupeGroup>,
    i: int,
    j: int,
)
    requires
        recs.len() == partial.len() == full.len(),
        groups_of(style, recs, full_buckets(recs, min_size, partial, full), full, dirs, raw),
        is_sorted_copy(raw, group_keys(raw), out),
        0 <= i < recs.len(),
        0 <= j < recs.len(),
        i != j,
        same_content(recs, min_size, partial, full, i, j),
    ensures
        exists|g: int|
            0 <= g < out.len() && group_holds(#[trigger] out[g], recs[i]) && group_holds(
                out[g],
                recs[j],
            ),
{
    let buckets = full_buckets(recs, min_size, partial, full);
    law_groups_hold_identical_content(recs, min_size, partial, full, i, j);
    let key = buckets[i]->0;
    let pos = positions(buckets, key);
    lemma_shares(buckets, i);
    lemma_positions(buckets, key);
    lemma_distinct_keys(buckets);
    assert(buckets.contains(Some(key)));
    let names = distinct_keys(buckets);
    assert(names.contains(key));
    let s = choose|s: int| 0 <= s < names.len() && names[s] == key;
    names.lemma_filter_contains(crowded(buckets), s);
    let a = choose|a: int| 0 <= a < dupe_keys(buckets).len() && dupe_keys(buckets)[a] == key;
    assert(group_of(style, recs, full, dirs, pos, raw[a]));
    lemma_members_of(style, recs, full, dirs, pos, raw[a]);
    lemma_out_of_raw(raw, out);
    assert(raw.contains(raw[a]));
    assert(out.contains(raw[a]));
    let g = choose|g: int| 0 <= g < out.len() && out[g] == raw[a];
    let at = records_at(recs, pos);
    let x = choose|x: int| 0 <= x < pos.len() && pos[x] == i;
    let y = choose|y: int| 0 <= y < pos.len() && pos[y] == j;
    assert(at[x] == recs[i] && at[y] == recs[j]);
    assert(at.contains(recs[i]) && at.contains(recs[j]));
    assert(group_holds(out[g], recs[i]) && group_holds(out[g], recs[j]));
}

/// The groups with the most to gain come first: deleting all but one member of a
/// group frees at least as many bytes as doing so with any later group.
pub proof fn law_groups_come_by_what_they_waste(raw: Seq<DupeGroup>, out: Seq<DupeGroup>, g: int, h: int)
    requires
        is_sorted_copy(raw, group_keys(raw), out),
        forall|k: int| 0 <= k < out.len() ==> (#[trigger] out[k]).wf(),
        0 <= g < h < out.len(),
    ensures
        out[g].size * (out[g].members@.len() - 1) >= out[h].size * (out[h].members@.len() - 1),
{
    law_sorted_copy_is_ascending(
        raw,
        |g: DupeGroup| (descending((g.size * (g.members@.len() - 1)) as u64), g.hash@),
        group_keys(raw),
        out,
    );
    assert(out[g].wf() && out[h].wf());
    assert(out[g].size * (out[g].members@.len() - 1) >= 0) by (nonlinear_arith)
        requires
            out[g].members@.len() >= 2,
    ;
    assert(out[h].size * (out[h].members@.len() - 1) >= 0) by (nonlinear_arith)
        requires
            out[h].members@.len() >= 2,
    ;
}

// ----------------------------------------------------------------- funnel --
/// The records whose head and tail have to be hashed are the files of at least
/// the minimum size that are not the only ones of their size, and each is asked
/// for once.
pub proof fn law_files_of_equal_size_are_hashed(
    recs: Seq<Record>,
    min_size: u64,
    wanted: Seq<usize>,
    i: int,
    j: int,
)
    requires
        sharing(size_buckets(recs, min_size), wanted),
        0 <= i < recs.len(),
        0 <= j < recs.len(),
        i != j,
        !recs[i].is_dir,
        !recs[j].is_dir,
        recs[i].size >= min_size,
        recs[i].size == recs[j].size,
    ensures
        exists|k: int| 0 <= k < wanted.len() && #[trigger] wanted[k] == i,
{
    let b = size_buckets(recs, min_size);
    assert(b[i] == b[j] && b[i] is Some);
    lemma_shares(b, i);
}

} // verus!
