//! Where the space went: largest files and folders, by type and by age.
use crate::lists::{
    lemma_filter_ends, lemma_filter_sum_prefix, lemma_filter_take, lemma_sum_push, sum,
};
use crate::order::{
    descending, is_sorted_copy, is_stable_order, key_views, permuted, rank_descending,
    sort_by_keys, SortKey,
};
use crate::paths::{
    is_same, is_under, lemma_parent_shorter, parent, parent_of, same_path, under, PathStyle,
};
use crate::tally::{tally_bytes, tally_count, tally_names, Tally};
use crate::text::{chars_of, copy};
use crate::types::{records, FileRecord, Record};
use vstd::prelude::*;

verus! {

#[derive(Debug, PartialEq)]
pub struct ExtStat {
    /// `(none)` for files without extension.
    pub ext: String,
    pub count: u64,
    pub bytes: u64,
}

#[derive(Debug, PartialEq)]
pub struct DirStat {
    pub path: String,
    /// Cumulative bytes of all files anywhere below this directory.
    pub bytes: u64,
    pub files: u64,
}

#[derive(Debug, PartialEq)]
pub struct AgeBucket {
    pub label: &'static str,
    pub count: u64,
    pub bytes: u64,
}

pub const DAY: i64 = 86_400;

// ------------------------------------------------------------------- model --
pub open spec fn is_file() -> spec_fn(Record) -> bool {
    |r: Record| !r.is_dir
}

pub open spec fn record_size() -> spec_fn(Record) -> nat {
    |r: Record| r.size as nat
}

/// The files among the records.
pub open spec fn files(v: Seq<Record>) -> Seq<Record> {
    v.filter(is_file())
}

/// The bytes of all files.
pub open spec fn file_bytes(v: Seq<Record>) -> nat {
    sum(files(v), record_size())
}

/// The first `n` items, or all where there are fewer.
pub open spec fn at_most<T>(v: Seq<T>, n: nat) -> Seq<T> {
    if n < v.len() {
        v.take(n as int)
    } else {
        v
    }
}

/// Largest first; ties by path.
pub open spec fn size_keys(v: Seq<Record>) -> Seq<(u64, Seq<char>)> {
    v.map_values(|r: Record| (descending(r.size), r.path))
}

/// `out` lists the `n` largest of `v`.
pub open spec fn largest(v: Seq<Record>, n: nat, out: Seq<Record>) -> bool {
    exists|sorted: Seq<Record>| #[trigger]
        is_sorted_copy(v, size_keys(v), sorted) && out == at_most(sorted, n)
}

/// The views of a list of references.
pub open spec fn ref_records(v: Seq<&FileRecord>) -> Seq<Record> {
    v.map_values(|r: &FileRecord| r@)
}

// --------------------------------------------------------------- top files --
/// The largest of some files.
fn largest_of<'a>(list: Vec<&'a FileRecord>, n: usize) -> (r: Vec<&'a FileRecord>)
    ensures
        largest(ref_records(list@), n as nat, ref_records(r@)),
{
    let ghost all = ref_records(list@);
    let ghost raw = list@;
    let mut keys: Vec<SortKey> = Vec::new();
    let mut i: usize = 0;
    while i < list.len()
        invariant
            i <= list@.len(),
            all == ref_records(list@),
            keys@.len() == i,
            forall|k: int|
                0 <= k < i ==> (#[trigger] keys@[k])@ == (descending(all[k].size), all[k].path),
        decreases list@.len() - i,
    {
        keys.push(
            SortKey {
                rank: rank_descending(list[i].size),
                name: chars_of(list[i].path.as_str()),
            },
        );
        i += 1;
    }
    assert(key_views(keys@) =~= size_keys(all));
    let mut sorted: Vec<&'a FileRecord> = sort_by_keys(list, &keys);
    let ghost sv = ref_records(sorted@);
    assert(is_sorted_copy(all, size_keys(all), sv)) by {
        let p = choose|p: Seq<usize>|
            is_stable_order(key_views(keys@), p) && #[trigger] permuted(raw, p, sorted@);
        assert(permuted(all, p, sv));
    }
    if n < sorted.len() {
        sorted.truncate(n);
    }
    assert(ref_records(sorted@) =~= at_most(sv, n as nat));
    sorted
}

/// Largest files, descending by size.
pub fn top_files<'a>(records: &'a Vec<FileRecord>, n: usize) -> (r: Vec<&'a FileRecord>)
    ensures
        largest(files(crate::types::records(records@)), n as nat, ref_records(r@)),
{
    let ghost all = crate::types::records(records@);
    let ghost p = is_file();
    let mut list: Vec<&'a FileRecord> = Vec::new();
    let mut i: usize = 0;
    proof {
        lemma_filter_ends(all, p);
        assert(ref_records(list@) =~= all.take(0).filter(p));
    }
    while i < records.len()
        invariant
            i <= records@.len(),
            all == crate::types::records(records@),
            p == is_file(),
            ref_records(list@) == all.take(i as int).filter(p),
        decreases records@.len() - i,
    {
        let ghost before = list@;
        proof {
            lemma_filter_take(all, p, i as int);
        }
        if !records[i].is_dir {
            list.push(&records[i]);
            assert(ref_records(list@) =~= ref_records(before).push(all[i as int]));
        }
        i += 1;
    }
    largest_of(list, n)
}

// ------------------------------------------------------------ by extension --
/// The name a file is counted under.
pub open spec fn ext_name(r: Record) -> Seq<char> {
    match r.ext {
        Some(e) => e,
        None => "(none)"@,
    }
}

/// The extension and size of each file.
pub open spec fn ext_entries(v: Seq<Record>) -> Seq<(Seq<char>, u64)> {
    files(v).map_values(|r: Record| (ext_name(r), r.size))
}

/// A name with its count and its sum.
pub open spec fn tallied(entries: Seq<(Seq<char>, u64)>) -> Seq<(Seq<char>, nat, nat)> {
    tally_names(entries).map_values(
        |k: Seq<char>| (k, tally_count(entries, k), tally_bytes(entries, k)),
    )
}

/// Largest sum first; ties by name.
pub open spec fn tally_keys(v: Seq<(Seq<char>, nat, nat)>) -> Seq<(u64, Seq<char>)> {
    v.map_values(|t: (Seq<char>, nat, nat)| (descending(t.2 as u64), t.0))
}

/// `out` lists the `n` names with the largest sums.
pub open spec fn top_tallies(
    entries: Seq<(Seq<char>, u64)>,
    n: nat,
    out: Seq<(Seq<char>, nat, nat)>,
) -> bool {
    exists|sorted: Seq<(Seq<char>, nat, nat)>| #[trigger]
        is_sorted_copy(tallied(entries), tally_keys(tallied(entries)), sorted) && out == at_most(
            sorted,
            n,
        )
}

pub open spec fn ext_views(v: Seq<ExtStat>) -> Seq<(Seq<char>, nat, nat)> {
    v.map_values(|s: ExtStat| (s.ext@, s.count as nat, s.bytes as nat))
}

pub open spec fn dir_views(v: Seq<DirStat>) -> Seq<(Seq<char>, nat, nat)> {
    v.map_values(|s: DirStat| (s.path@, s.files as nat, s.bytes as nat))
}

/// The rows of a tally: name, count and sum.
pub open spec fn rows(v: Seq<(String, u64, u64)>) -> Seq<(Seq<char>, nat, nat)> {
    v.map_values(|t: (String, u64, u64)| (t.0@, t.1 as nat, t.2 as nat))
}

fn top_rows(tally: &Tally, n: usize) -> (r: Vec<(String, u64, u64)>)
    requires
        tally.wf(),
    ensures
        top_tallies(tally.entries(), n as nat, rows(r@)),
{
    let ghost e = tally.entries();
    let ghost all = tallied(e);
    let mut list: Vec<(String, u64, u64)> = Vec::new();
    let mut keys: Vec<SortKey> = Vec::new();
    let mut i: usize = 0;
    let count: usize = tally.len();
    while i < count
        invariant
            i <= count == all.len(),
            tally.wf(),
            e == tally.entries(),
            all == tallied(e),
            count == tally_names(e).len(),
            list@.len() == i,
            keys@.len() == i,
            forall|k: int| 0 <= k < i ==> (#[trigger] rows(list@)[k]) == all[k],
            forall|k: int| 0 <= k < i ==> (#[trigger] keys@[k])@ == tally_keys(all)[k],
        decreases count - i,
    {
        let row: (String, u64, u64) = tally.get(i);
        let ghost before = list@;
        keys.push(SortKey { rank: rank_descending(row.2), name: chars_of(row.0.as_str()) });
        list.push(row);
        proof {
            assert forall|k: int| 0 <= k < i + 1 implies (#[trigger] rows(list@)[k]) == all[k] by {
                if k < i {
                    assert(rows(before)[k] == all[k]);
                }
            }
        }
        i += 1;
    }
    assert(rows(list@) =~= all);
    assert(key_views(keys@) =~= tally_keys(all));
    let ghost raw = list@;
    let mut sorted: Vec<(String, u64, u64)> = sort_by_keys(list, &keys);
    let ghost sv = rows(sorted@);
    assert(is_sorted_copy(all, tally_keys(all), sv)) by {
        let p = choose|p: Seq<usize>|
            is_stable_order(key_views(keys@), p) && #[trigger] permuted(raw, p, sorted@);
        assert(permuted(all, p, sv));
    }
    if n < sorted.len() {
        sorted.truncate(n);
    }
    assert(rows(sorted@) =~= at_most(sv, n as nat));
    sorted
}

/// Bytes and counts grouped by extension, descending by bytes.
pub fn by_extension(records: &Vec<FileRecord>, n: usize) -> (r: Vec<ExtStat>)
    requires
        file_bytes(crate::types::records(records@)) <= u64::MAX,
    ensures
        top_tallies(ext_entries(crate::types::records(records@)), n as nat, ext_views(r@)),
{
    let ghost all = crate::types::records(records@);
    let ghost p = is_file();
    let ghost f = record_size();
    let ghost e = ext_entries(all);
    let mut tally: Tally = Tally::new();
    let mut i: usize = 0;
    proof {
        lemma_filter_ends(all, p);
        assert(tally.entries() =~= ext_entries(all.take(0)));
    }
    while i < records.len()
        invariant
            i <= records@.len(),
            all == crate::types::records(records@),
            p == is_file(),
            f == record_size(),
            file_bytes(all) <= u64::MAX,
            tally.wf(),
            tally.entries() == ext_entries(all.take(i as int)),
            forall|k: Seq<char>| #[trigger]
                tally_count(tally.entries(), k) <= i,
            forall|k: Seq<char>| #[trigger]
                tally_bytes(tally.entries(), k) <= sum(all.take(i as int).filter(p), f),
        decreases records@.len() - i,
    {
        let r: &FileRecord = &records[i];
        let ghost before = tally.entries();
        proof {
            assert(all[i as int] == r@);
            lemma_filter_take(all, p, i as int);
            lemma_filter_sum_prefix(all, p, f, i + 1);
        }
        if !r.is_dir {
            proof {
                lemma_sum_push(all.take(i as int).filter(p), f, r@);
            }
            let name: String = match &r.ext {
                Some(x) => x.clone(),
                None => copy("(none)"),
            };
            tally.add(name.as_str(), r.size);
            proof {
                assert(tally.entries() =~= ext_entries(all.take(i + 1)));
                assert(tally.entries().drop_last() =~= before);
                assert forall|k: Seq<char>| #[trigger] tally_count(tally.entries(), k) <= i + 1 by {
                    assert(tally_count(before, k) <= i);
                }
                assert forall|k: Seq<char>| #[trigger] tally_bytes(tally.entries(), k) <= sum(
                    all.take(i + 1).filter(p),
                    f,
                ) by {
                    assert(tally_bytes(before, k) <= sum(all.take(i as int).filter(p), f));
                }
            }
        }
        i += 1;
    }
    assert(all.take(i as int) =~= all);
    let top: Vec<(String, u64, u64)> = top_rows(&tally, n);
    let mut out: Vec<ExtStat> = Vec::new();
    let mut k: usize = 0;
    while k < top.len()
        invariant
            k <= top@.len(),
            ext_views(out@) == rows(top@).take(k as int),
        decreases top@.len() - k,
    {
        let ghost before = out@;
        out.push(ExtStat { ext: top[k].0.clone(), count: top[k].1, bytes: top[k].2 });
        k += 1;
        assert(ext_views(out@) =~= ext_views(before).push(rows(top@)[k - 1]));
        assert(rows(top@).take(k as int) =~= rows(top@).take(k - 1).push(rows(top@)[k - 1]));
    }
    assert(rows(top@).take(k as int) =~= rows(top@));
    out
}

// ---------------------------------------------------------------- top dirs --
/// The directories between a path and `root`, nearest first, without `root`
/// itself.
pub open spec fn dirs_above(style: PathStyle, path: Seq<char>, root: Seq<char>) -> Seq<Seq<char>>
    decreases path.len(),
{
    match parent(style, path) {
        None => Seq::empty(),
        Some(d) => if under(style, d, root) && !same_path(style, d, root) {
            proof {
                lemma_parent_shorter(style, path);
            }
            seq![d] + dirs_above(style, d, root)
        } else {
            Seq::empty()
        },
    }
}

/// One entry per file and directory above it.
pub open spec fn dir_entries(style: PathStyle, v: Seq<Record>, root: Seq<char>) -> Seq<
    (Seq<char>, u64),
>
    decreases v.len(),
{
    if v.len() == 0 {
        Seq::empty()
    } else {
        let before = dir_entries(style, v.drop_last(), root);
        if v.last().is_dir {
            before
        } else {
            before + dirs_above(style, v.last().path, root).map_values(
                |d: Seq<char>| (d, v.last().size),
            )
        }
    }
}

/// Cumulative directory sizes (a file counts toward every ancestor under
/// `root`).
pub fn top_dirs(style: PathStyle, records: &Vec<FileRecord>, root: &str, n: usize) -> (r: Vec<
    DirStat,
>)
    requires
        file_bytes(crate::types::records(records@)) <= u64::MAX,
    ensures
        top_tallies(
            dir_entries(style, crate::types::records(records@), root@),
            n as nat,
            dir_views(r@),
        ),
{
    let ghost all = crate::types::records(records@);
    let ghost p = is_file();
    let ghost f = record_size();
    let mut tally: Tally = Tally::new();
    let mut i: usize = 0;
    proof {
        lemma_filter_ends(all, p);
        assert(tally.entries() =~= dir_entries(style, all.take(0), root@));
    }
    while i < records.len()
        invariant
            i <= records@.len(),
            all == crate::types::records(records@),
            p == is_file(),
            f == record_size(),
            file_bytes(all) <= u64::MAX,
            tally.wf(),
            tally.entries() == dir_entries(style, all.take(i as int), root@),
            forall|k: Seq<char>| #[trigger] tally_count(tally.entries(), k) <= i,
            forall|k: Seq<char>| #[trigger]
                tally_bytes(tally.entries(), k) <= sum(all.take(i as int).filter(p), f),
        decreases records@.len() - i,
    {
        let rec: &FileRecord = &records[i];
        let ghost start = tally.entries();
        let ghost had = sum(all.take(i as int).filter(p), f);
        proof {
            assert(all[i as int] == rec@);
            lemma_filter_take(all, p, i as int);
            lemma_filter_sum_prefix(all, p, f, i + 1);
            assert(all.take(i + 1).drop_last() =~= all.take(i as int));
            assert(all.take(i + 1).last() == rec@);
        }
        if !rec.is_dir {
            proof {
                lemma_sum_push(all.take(i as int).filter(p), f, rec@);
            }
            let size: u64 = rec.size;
            let ghost chain = dirs_above(style, rec.path@, root@).map_values(
                |d: Seq<char>| (d, size),
            );
            let mut below: String = rec.path.clone();
            let mut more: bool = true;
            assert(start + chain =~= tally.entries() + chain);
            while more
                invariant
                    tally.wf(),
                    size == rec.size,
                    chain == dirs_above(style, rec.path@, root@).map_values(
                        |d: Seq<char>| (d, size),
                    ),
                    i < usize::MAX,
                    had + size <= u64::MAX,
                    more ==> start + chain == tally.entries() + dirs_above(
                        style,
                        below@,
                        root@,
                    ).map_values(|d: Seq<char>| (d, size)),
                    !more ==> tally.entries() == start + chain,
                    forall|k: Seq<char>| #[trigger] tally_count(tally.entries(), k) <= i + 1,
                    forall|k: Seq<char>| #[trigger]
                        tally_bytes(tally.entries(), k) <= had + size,
                    forall|k: Seq<char>|
                        k.len() < below@.len() ==> #[trigger] tally_count(tally.entries(), k) <= i,
                    forall|k: Seq<char>|
                        k.len() < below@.len() ==> #[trigger] tally_bytes(tally.entries(), k)
                            <= had,
                decreases below@.len(), (if more { 1int } else { 0int }),
            {
                let ghost rest = dirs_above(style, below@, root@);
                match parent_of(style, below.as_str()) {
                    None => {
                        more = false;
                        assert(rest.map_values(|d: Seq<char>| (d, size)) =~= Seq::empty());
                        assert(tally.entries() + Seq::<(Seq<char>, u64)>::empty()
                            =~= tally.entries());
                    },
                    Some(d) => {
                        proof {
                            lemma_parent_shorter(style, below@);
                        }
                        if is_under(style, d.as_str(), root) && !is_same(style, d.as_str(), root) {
                            let ghost before = tally.entries();
                            tally.add(d.as_str(), size);
                            proof {
                                let up = dirs_above(style, d@, root@);
                                assert(rest == seq![d@] + up);
                                assert(before + rest.map_values(|x: Seq<char>| (x, size))
                                    =~= tally.entries() + up.map_values(|x: Seq<char>| (x, size)));
                                assert(tally.entries().drop_last() =~= before);
                                assert forall|k: Seq<char>| #[trigger]
                                    tally_count(tally.entries(), k) <= i + 1 by {
                                    assert(tally_count(before, k) <= i + 1);
                                    assert(k.len() < below@.len() ==> tally_count(before, k) <= i);
                                }
                                assert forall|k: Seq<char>| #[trigger]
                                    tally_bytes(tally.entries(), k) <= had + size by {
                                    assert(tally_bytes(before, k) <= had + size);
                                    assert(k.len() < below@.len() ==> tally_bytes(before, k)
                                        <= had);
                                }
                                assert forall|k: Seq<char>| k.len() < d@.len() implies #[trigger]
                                    tally_count(tally.entries(), k) <= i by {
                                    assert(tally_count(before, k) <= i);
                                }
                                assert forall|k: Seq<char>| k.len() < d@.len() implies #[trigger]
                                    tally_bytes(tally.entries(), k) <= had by {
                                    assert(tally_bytes(before, k) <= had);
                                }
                            }
                            below = d;
                        } else {
                            more = false;
                            assert(rest.map_values(|x: Seq<char>| (x, size)) =~= Seq::empty());
                            assert(tally.entries() + Seq::<(Seq<char>, u64)>::empty()
                                =~= tally.entries());
                        }
                    },
                }
            }
        }
        i += 1;
    }
    assert(all.take(i as int) =~= all);
    let top: Vec<(String, u64, u64)> = top_rows(&tally, n);
    let mut out: Vec<DirStat> = Vec::new();
    let mut k: usize = 0;
    while k < top.len()
        invariant
            k <= top@.len(),
            dir_views(out@) == rows(top@).take(k as int),
        decreases top@.len() - k,
    {
        let ghost before = out@;
        out.push(DirStat { path: top[k].0.clone(), bytes: top[k].2, files: top[k].1 });
        k += 1;
        assert(dir_views(out@) =~= dir_views(before).push(rows(top@)[k - 1]));
        assert(rows(top@).take(k as int) =~= rows(top@).take(k - 1).push(rows(top@)[k - 1]));
    }
    assert(rows(top@).take(k as int) =~= rows(top@));
    out
}

// -------------------------------------------------------- files of one type --
/// Files counted under this extension.
pub open spec fn has_ext(ext: Seq<char>) -> spec_fn(Record) -> bool {
    |r: Record| !r.is_dir && ext_name(r) == ext
}

/// Largest files of one extension (`(none)` for files without one).
pub fn top_files_of_ext<'a>(records: &'a Vec<FileRecord>, ext: &str, n: usize) -> (r: Vec<
    &'a FileRecord,
>)
    ensures
        largest(
            crate::types::records(records@).filter(has_ext(ext@)),
            n as nat,
            ref_records(r@),
        ),
{
    let ghost all = crate::types::records(records@);
    let ghost p = has_ext(ext@);
    let mut list: Vec<&'a FileRecord> = Vec::new();
    let mut i: usize = 0;
    proof {
        lemma_filter_ends(all, p);
        assert(ref_records(list@) =~= all.take(0).filter(p));
    }
    while i < records.len()
        invariant
            i <= records@.len(),
            all == crate::types::records(records@),
            p == has_ext(ext@),
            ref_records(list@) == all.take(i as int).filter(p),
        decreases records@.len() - i,
    {
        let ghost before = list@;
        let r: &'a FileRecord = &records[i];
        proof {
            lemma_filter_take(all, p, i as int);
            assert(all[i as int] == r@);
        }
        let hit: bool = !r.is_dir && match &r.ext {
            Some(e) => crate::text::same(e.as_str(), ext),
            None => crate::text::same("(none)", ext),
        };
        if hit {
            list.push(r);
            assert(ref_records(list@) =~= ref_records(before).push(all[i as int]));
        }
        i += 1;
    }
    largest_of(list, n)
}

// ------------------------------------------------------------------ by age --
/// The bucket of a file that was modified this many seconds ago.
pub open spec fn age_bucket(age_secs: int) -> int {
    if age_secs < 30 * DAY {
        0
    } else if age_secs < 90 * DAY {
        1
    } else if age_secs < 365 * DAY {
        2
    } else if age_secs < 730 * DAY {
        3
    } else {
        4
    }
}

/// The files in one bucket.
pub open spec fn in_bucket(now_unix: i64, k: int) -> spec_fn(Record) -> bool {
    |r: Record| !r.is_dir && age_bucket(now_unix - r.modified) == k
}

pub open spec fn bucket_label(k: int) -> Seq<char> {
    if k == 0 {
        "< 30 days"@
    } else if k == 1 {
        "30-90 days"@
    } else if k == 2 {
        "90-365 days"@
    } else if k == 3 {
        "1-2 years"@
    } else {
        "> 2 years"@
    }
}

/// Every age is an `i64`.
pub open spec fn ages_fit(v: Seq<Record>, now_unix: i64) -> bool {
    forall|i: int|
        0 <= i < v.len() && !(#[trigger] v[i]).is_dir ==> i64::MIN <= now_unix - v[i].modified
            <= i64::MAX
}

fn bucket_of(age_secs: i64) -> (r: usize)
    ensures
        r == age_bucket(age_secs as int),
        r < 5,
{
    if age_secs < 30 * DAY {
        0
    } else if age_secs < 90 * DAY {
        1
    } else if age_secs < 365 * DAY {
        2
    } else if age_secs < 730 * DAY {
        3
    } else {
        4
    }
}

fn label_of(k: usize) -> (r: &'static str)
    ensures
        r@ == bucket_label(k as int),
{
    if k == 0 {
        "< 30 days"
    } else if k == 1 {
        "30-90 days"
    } else if k == 2 {
        "90-365 days"
    } else if k == 3 {
        "1-2 years"
    } else {
        "> 2 years"
    }
}

/// Files bucketed by age of last modification relative to `now_unix`.
pub fn by_age(records: &Vec<FileRecord>, now_unix: i64) -> (r: Vec<AgeBucket>)
    requires
        file_bytes(crate::types::records(records@)) <= u64::MAX,
        ages_fit(crate::types::records(records@), now_unix),
    ensures
        r@.len() == 5,
        forall|k: int|
            0 <= k < 5 ==> {
                let there = crate::types::records(records@).filter(in_bucket(now_unix, k));
                &&& (#[trigger] r@[k]).label@ == bucket_label(k)
                &&& r@[k].count == there.len()
                &&& r@[k].bytes == sum(there, record_size())
            },
{
    let ghost all = crate::types::records(records@);
    let ghost p = is_file();
    let ghost f = record_size();
    let mut counts: Vec<u64> = vec![0u64; 5];
    let mut sums: Vec<u64> = vec![0u64; 5];
    let mut i: usize = 0;
    proof {
        lemma_filter_ends(all, p);
        assert forall|k: int| 0 <= k < 5 implies all.take(0).filter(
            #[trigger] in_bucket(now_unix, k),
        ).len() == 0 && sum(all.take(0).filter(in_bucket(now_unix, k)), f) == 0 by {
            lemma_filter_ends(all, in_bucket(now_unix, k));
        }
    }
    while i < records.len()
        invariant
            i <= records@.len(),
            all == crate::types::records(records@),
            p == is_file(),
            f == record_size(),
            file_bytes(all) <= u64::MAX,
            ages_fit(all, now_unix),
            counts@.len() == 5,
            sums@.len() == 5,
            forall|k: int|
                0 <= k < 5 ==> {
                    let there = all.take(i as int).filter(#[trigger] in_bucket(now_unix, k));
                    counts@[k] == there.len() && sums@[k] == sum(there, f)
                },
            forall|k: int| 0 <= k < 5 ==> (#[trigger] counts@[k]) <= i,
            forall|k: int|
                0 <= k < 5 ==> (#[trigger] sums@[k]) <= sum(all.take(i as int).filter(p), f),
        decreases records@.len() - i,
    {
        let r: &FileRecord = &records[i];
        let ghost counts0 = counts@;
        let ghost sums0 = sums@;
        proof {
            assert(all[i as int] == r@);
            lemma_filter_take(all, p, i as int);
            lemma_filter_sum_prefix(all, p, f, i + 1);
        }
        if !r.is_dir {
            let b: usize = bucket_of(now_unix - r.modified);
            proof {
                lemma_sum_push(all.take(i as int).filter(p), f, r@);
            }
            let c: u64 = counts[b] + 1;
            let s: u64 = sums[b] + r.size;
            counts.set(b, c);
            sums.set(b, s);
        }
        proof {
            assert forall|k: int| 0 <= k < 5 implies {
                let there = all.take(i + 1).filter(#[trigger] in_bucket(now_unix, k));
                counts@[k] == there.len() && sums@[k] == sum(there, f)
            } by {
                let q = in_bucket(now_unix, k);
                lemma_filter_take(all, q, i as int);
                assert(counts0[k] == all.take(i as int).filter(q).len());
                assert(sums0[k] == sum(all.take(i as int).filter(q), f));
                if q(all[i as int]) {
                    lemma_sum_push(all.take(i as int).filter(q), f, all[i as int]);
                }
            }
            assert forall|k: int| 0 <= k < 5 implies (#[trigger] counts@[k]) <= i + 1 by {
                assert(counts0[k] <= i);
            }
            assert forall|k: int| 0 <= k < 5 implies (#[trigger] sums@[k]) <= sum(
                all.take(i + 1).filter(p),
                f,
            ) by {
                assert(sums0[k] <= sum(all.take(i as int).filter(p), f));
            }
        }
        i += 1;
    }
    assert(all.take(i as int) =~= all);
    let mut out: Vec<AgeBucket> = Vec::new();
    let mut k: usize = 0;
    while k < 5
        invariant
            k <= 5,
            counts@.len() == 5,
            sums@.len() == 5,
            out@.len() == k,
            forall|j: int|
                0 <= j < k ==> (#[trigger] out@[j]).label@ == bucket_label(j) && out@[j].count
                    == counts@[j] && out@[j].bytes == sums@[j],
        decreases 5 - k,
    {
        out.push(AgeBucket { label: label_of(k), count: counts[k], bytes: sums[k] });
        k += 1;
    }
    proof {
        assert forall|k: int| 0 <= k < 5 implies {
            let there = all.filter(in_bucket(now_unix, k));
            &&& (#[trigger] out@[k]).label@ == bucket_label(k)
            &&& out@[k].count == there.len()
            &&& out@[k].bytes == sum(there, record_size())
        } by {
            assert(counts@[k] == all.take(i as int).filter(in_bucket(now_unix, k)).len());
        }
    }
    out
}

/// Every file is in exactly one age bucket: the buckets add up to all files
/// and all bytes.
pub proof fn law_age_buckets_partition_files(v: Seq<Record>, now_unix: i64)
    ensures
        v.filter(in_bucket(now_unix, 0)).len() + v.filter(in_bucket(now_unix, 1)).len() + v.filter(
            in_bucket(now_unix, 2),
        ).len() + v.filter(in_bucket(now_unix, 3)).len() + v.filter(in_bucket(now_unix, 4)).len()
            == files(v).len(),
        sum(v.filter(in_bucket(now_unix, 0)), record_size()) + sum(
            v.filter(in_bucket(now_unix, 1)),
            record_size(),
        ) + sum(v.filter(in_bucket(now_unix, 2)), record_size()) + sum(
            v.filter(in_bucket(now_unix, 3)),
            record_size(),
        ) + sum(v.filter(in_bucket(now_unix, 4)), record_size()) == file_bytes(v),
    decreases v.len(),
{
    reveal(Seq::filter);
    if v.len() > 0 {
        let short = v.drop_last();
        let x = v.last();
        law_age_buckets_partition_files(short, now_unix);
        let f = record_size();
        lemma_sum_push(short.filter(is_file()), f, x);
        lemma_sum_push(short.filter(in_bucket(now_unix, 0)), f, x);
        lemma_sum_push(short.filter(in_bucket(now_unix, 1)), f, x);
        lemma_sum_push(short.filter(in_bucket(now_unix, 2)), f, x);
        lemma_sum_push(short.filter(in_bucket(now_unix, 3)), f, x);
        lemma_sum_push(short.filter(in_bucket(now_unix, 4)), f, x);
    }
}

} // verus!
