//! What the Analyze screen shows of a scan, and when a saved scan may be
//! refreshed from the change journal.
use crate::lists::sum;
use crate::merge::is_dir_record;
use crate::paths::PathStyle;
use crate::report::{
    bucket_label, by_age, by_extension, dir_entries, dir_views, ext_entries, ext_views, file_bytes,
    files, has_ext, in_bucket, largest, record_size, ref_records, top_dirs, top_files,
    top_files_of_ext, top_tallies, ages_fit, AgeBucket, DirStat, ExtStat,
};
use crate::scanner::ScanOutcome;
use crate::session::{count_dirs, count_files, total_bytes};
use crate::text::copy;
use crate::types::{records, FileRecord, Record};
use vstd::prelude::*;

verus! {

/// A file with its size.
#[derive(Debug)]
pub struct FileItem {
    pub path: String,
    pub bytes: u64,
}

pub open spec fn item_views(v: Seq<FileItem>) -> Seq<(Seq<char>, u64)> {
    v.map_values(|f: FileItem| (f.path@, f.bytes))
}

pub open spec fn record_items(v: Seq<Record>) -> Seq<(Seq<char>, u64)> {
    v.map_values(|r: Record| (r.path, r.size))
}

/// An extension, with the largest files of this type (drill-down detail).
#[derive(Debug)]
pub struct ExtItem {
    pub stat: ExtStat,
    pub top: Vec<FileItem>,
}

/// What the screen shows.
#[derive(Debug)]
pub struct Analysis {
    pub root: String,
    pub total_bytes: u64,
    pub files: usize,
    pub dirs: usize,
    pub skipped: usize,
    pub top_files: Vec<FileItem>,
    pub top_dirs: Vec<DirStat>,
    pub exts: Vec<ExtItem>,
    pub ages: Vec<AgeBucket>,
    /// True when served from a saved snapshot (instant, possibly stale).
    pub cached: bool,
    /// Snapshot age in seconds (0 for fresh results).
    pub age_secs: i64,
    /// How the result was produced: "cache" | "delta" | "full".
    pub method: String,
    /// Directories re-enumerated live in a delta refresh (0 otherwise).
    pub delta_dirs: u64,
}

/// `items` lists the `n` largest of some files.
pub open spec fn lists_largest(v: Seq<Record>, n: nat, items: Seq<FileItem>) -> bool {
    exists|out: Seq<Record>| #[trigger]
        largest(v, n, out) && item_views(items) == record_items(out)
}

pub open spec fn stats_of(v: Seq<ExtItem>) -> Seq<(Seq<char>, nat, nat)> {
    v.map_values(|e: ExtItem| (e.stat.ext@, e.stat.count as nat, e.stat.bytes as nat))
}

fn items_of(v: &Vec<&FileRecord>) -> (r: Vec<FileItem>)
    ensures
        item_views(r@) == record_items(ref_records(v@)),
{
    let ghost recs = ref_records(v@);
    let mut out: Vec<FileItem> = Vec::new();
    let mut i: usize = 0;
    while i < v.len()
        invariant
            i <= v@.len(),
            recs == ref_records(v@),
            out@.len() == i,
            forall|k: int|
                0 <= k < i ==> ((#[trigger] out@[k]).path@, out@[k].bytes) == (
                    recs[k].path,
                    recs[k].size,
                ),
        decreases v@.len() - i,
    {
        assert(recs[i as int] == v@[i as int]@);
        out.push(FileItem { path: v[i].path.clone(), bytes: v[i].size });
        i += 1;
    }
    assert(recs.len() == v@.len());
    assert(item_views(out@) =~= record_items(recs));
    out
}

fn ext_items(recs: &Vec<FileRecord>, stats: Vec<ExtStat>) -> (r: Vec<ExtItem>)
    ensures
        stats_of(r@) == ext_views(stats@),
        forall|i: int|
            0 <= i < r@.len() ==> lists_largest(
                records(recs@).filter(has_ext((#[trigger] r@[i]).stat.ext@)),
                25,
                r@[i].top@,
            ),
{
    let ghost all = stats@;
    let ghost n = all.len();
    let mut rest: Vec<ExtStat> = stats;
    let mut back: Vec<ExtStat> = Vec::new();
    while rest.len() > 0
        invariant
            rest@ + back@.reverse() == all,
        decreases rest@.len(),
    {
        let ghost before = rest@;
        let ghost turned = back@;
        match rest.pop() {
            Some(s) => {
                back.push(s);
                assert(rest@ + back@.reverse() =~= before + turned.reverse());
            },
            None => {},
        }
    }
    assert(back@.reverse() =~= all);
    let mut out: Vec<ExtItem> = Vec::new();
    while back.len() > 0
        invariant
            n == all.len(),
            back@.len() + out@.len() == n,
            back@.reverse() == all.skip(out@.len() as int),
            forall|i: int|
                0 <= i < out@.len() ==> (#[trigger] out@[i]).stat == all[i] && lists_largest(
                    records(recs@).filter(has_ext(out@[i].stat.ext@)),
                    25,
                    out@[i].top@,
                ),
        decreases back@.len(),
    {
        let ghost k = out@.len() as int;
        let ghost turned = back@;
        match back.pop() {
            Some(s) => {
                proof {
                    assert(s == turned.reverse()[0]);
                    assert(s == all[k]);
                    assert(back@.reverse() =~= all.skip(k + 1)) by {
                        assert forall|j: int| 0 <= j < back@.len() implies back@.reverse()[j]
                            == all.skip(k + 1)[j] by {
                            assert(back@.reverse()[j] == turned.reverse()[j + 1]);
                            assert(all.skip(k)[j + 1] == all[k + 1 + j]);
                        }
                    }
                }
                let list: Vec<&FileRecord> = top_files_of_ext(recs, s.ext.as_str(), 25);
                let top: Vec<FileItem> = items_of(&list);
                assert(largest(
                    records(recs@).filter(has_ext(s.ext@)),
                    25,
                    ref_records(list@),
                ));
                out.push(ExtItem { stat: s, top });
            },
            None => {},
        }
    }
    assert(stats_of(out@) =~= ext_views(all));
    out
}

/// What is shown of a scan: totals, the 15 largest files and directories, the
/// 12 largest types with their 25 largest files each, and the ages.
pub fn build_analysis(
    style: PathStyle,
    outcome: &ScanOutcome,
    root: &str,
    now_unix: i64,
    cached: bool,
    age_secs: i64,
    method: &str,
    delta_dirs: u64,
) -> (r: Analysis)
    requires
        file_bytes(records(outcome.records@)) <= u64::MAX,
        ages_fit(records(outcome.records@), now_unix),
    ensures
        r.root@ == root@,
        r.total_bytes == file_bytes(records(outcome.records@)),
        r.files == files(records(outcome.records@)).len(),
        r.dirs == records(outcome.records@).filter(is_dir_record()).len(),
        r.skipped == outcome.skipped@.len(),
        lists_largest(files(records(outcome.records@)), 15, r.top_files@),
        top_tallies(
            dir_entries(style, records(outcome.records@), root@),
            15,
            dir_views(r.top_dirs@),
        ),
        top_tallies(ext_entries(records(outcome.records@)), 12, stats_of(r.exts@)),
        forall|i: int|
            0 <= i < r.exts@.len() ==> lists_largest(
                records(outcome.records@).filter(has_ext((#[trigger] r.exts@[i]).stat.ext@)),
                25,
                r.exts@[i].top@,
            ),
        r.ages@.len() == 5,
        forall|k: int|
            0 <= k < 5 ==> {
                let there = records(outcome.records@).filter(in_bucket(now_unix, k));
                &&& (#[trigger] r.ages@[k]).label@ == bucket_label(k)
                &&& r.ages@[k].count == there.len()
                &&& r.ages@[k].bytes == sum(there, record_size())
            },
        r.cached == cached,
        r.age_secs == age_secs,
        r.method@ == method@,
        r.delta_dirs == delta_dirs,
{
    let recs: &Vec<FileRecord> = &outcome.records;
    let list: Vec<&FileRecord> = top_files(recs, 15);
    let largest_files: Vec<FileItem> = items_of(&list);
    assert(largest(files(records(recs@)), 15, ref_records(list@)));
    let stats: Vec<ExtStat> = by_extension(recs, 12);
    let exts: Vec<ExtItem> = ext_items(recs, stats);
    Analysis {
        root: copy(root),
        total_bytes: total_bytes(recs),
        files: count_files(recs),
        dirs: count_dirs(recs),
        skipped: outcome.skipped.len(),
        top_files: largest_files,
        top_dirs: top_dirs(style, recs, root, 15),
        exts,
        ages: by_age(recs, now_unix),
        cached,
        age_secs,
        method: copy(method),
        delta_dirs,
    }
}

/// The age of a saved scan, never negative.
pub fn snapshot_age(now_unix: i64, created_unix: i64) -> (r: i64)
    requires
        i64::MIN <= now_unix - created_unix <= i64::MAX,
    ensures
        r == if now_unix >= created_unix {
            now_unix - created_unix
        } else {
            0
        },
{
    let age: i64 = now_unix - created_unix;
    if age > 0 {
        age
    } else {
        0
    }
}

/// The limit for a snapshot with so many directories.
pub open spec fn dirty_limit(dirs: nat) -> nat {
    if dirs / 2 < 256 {
        256
    } else if dirs / 2 > 50_000 {
        50_000
    } else {
        dirs / 2
    }
}

/// How many changed directories a refresh from the journal may have. Resolving
/// one changed dir costs ~1 file open; past half the snapshot's dir count a full
/// walk is competitive anyway.
pub fn max_dirty(recs: &Vec<FileRecord>) -> (r: usize)
    ensures
        r == dirty_limit(records(recs@).filter(is_dir_record()).len()),
        ({
            let half = records(recs@).filter(is_dir_record()).len() / 2;
            r == if half < 256 {
                256
            } else if half > 50_000 {
                50_000
            } else {
                half
            }
        }),
{
    let half: usize = count_dirs(recs) / 2;
    if half < 256 {
        256
    } else if half > 50_000 {
        50_000
    } else {
        half
    }
}

/// The limit is half the directories, but never below 256 and never above 50,000,
/// and a larger snapshot has no smaller one.
pub proof fn law_limit_is_half_the_directories(dirs: nat, more: nat)
    requires
        dirs <= more,
    ensures
        256 <= dirty_limit(dirs) <= 50_000,
        512 <= dirs <= 100_000 ==> 2 * dirty_limit(dirs) <= dirs < 2 * dirty_limit(dirs) + 2,
        dirty_limit(dirs) <= dirty_limit(more),
{
}

} // verus!
