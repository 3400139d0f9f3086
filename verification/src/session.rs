//! A scan kept for later: the commands that analyze work on this.
use crate::error::CoreError;
use crate::lists::{lemma_filter_ends, lemma_filter_sum_prefix, lemma_filter_take, lemma_sum_push, sum};
use crate::merge::is_dir_record;
use crate::report::{file_bytes, files, is_file, record_size};
use crate::scanner::ScanOutcome;
use crate::text::{copy, decimal, decimal_of};
use crate::types::{records, FileRecord, SkippedPath};
use vstd::prelude::*;

verus! {

pub const SESSION_VERSION: u32 = 1;

pub const DEFAULT_SESSION_FILE: &'static str = "clean-session.json";

/// Snapshot of one scan; `analyze`, `junk` and `dupes` operate on this.
#[derive(Debug)]
pub struct Session {
    pub version: u32,
    pub root: String,
    pub created_unix: i64,
    pub records: Vec<FileRecord>,
    pub skipped: Vec<SkippedPath>,
}

impl Session {
    /// The session of a scan that ended at `now_unix`.
    pub fn from_scan(root: &str, outcome: ScanOutcome, now_unix: i64) -> (r: Self)
        ensures
            r.version == SESSION_VERSION,
            r.root@ == root@,
            r.created_unix == now_unix,
            r.records == outcome.records,
            r.skipped == outcome.skipped,
    {
        Session {
            version: SESSION_VERSION,
            root: copy(root),
            created_unix: now_unix,
            records: outcome.records,
            skipped: outcome.skipped,
        }
    }

    /// Accepts a session that was read from a file. Another version is refused.
    pub fn load(read: Session) -> (r: Result<Session, CoreError>)
        ensures
            match r {
                Ok(s) => s == read && read.version == SESSION_VERSION,
                Err(e) => read.version != SESSION_VERSION && (e matches CoreError::Session(why)
                    && why@ == "unsupported session version "@ + decimal(read.version as nat)
                    + " (expected "@ + decimal(SESSION_VERSION as nat)
                    + "); re-run `clean scan`"@),
            },
    {
        if read.version != SESSION_VERSION {
            let mut why: String = copy("unsupported session version ");
            why.push_str(decimal_of(read.version as u64).as_str());
            why.push_str(" (expected ");
            why.push_str(decimal_of(SESSION_VERSION as u64).as_str());
            why.push_str("); re-run `clean scan`");
            return Err(CoreError::Session(why));
        }
        Ok(read)
    }

    /// The bytes of all files.
    pub fn total_file_bytes(&self) -> (r: u64)
        requires
            file_bytes(records(self.records@)) <= u64::MAX,
        ensures
            r == file_bytes(records(self.records@)),
    {
        total_bytes(&self.records)
    }

    /// How many files there are.
    pub fn file_count(&self) -> (r: usize)
        ensures
            r == files(records(self.records@)).len(),
    {
        count_files(&self.records)
    }

    /// How many directories there are.
    pub fn dir_count(&self) -> (r: usize)
        ensures
            r == records(self.records@).filter(is_dir_record()).len(),
    {
        count_dirs(&self.records)
    }
}

/// The bytes of all files among the records.
pub fn total_bytes(v: &Vec<FileRecord>) -> (r: u64)
    requires
        file_bytes(records(v@)) <= u64::MAX,
    ensures
        r == file_bytes(records(v@)),
{
    let ghost all = records(v@);
    let ghost p = is_file();
    let ghost f = record_size();
    let mut total: u64 = 0;
    let mut i: usize = 0;
    proof {
        lemma_filter_ends(all, p);
    }
    while i < v.len()
        invariant
            i <= v@.len(),
            all == records(v@),
            p == is_file(),
            f == record_size(),
            file_bytes(all) <= u64::MAX,
            total == sum(all.take(i as int).filter(p), f),
        decreases v@.len() - i,
    {
        proof {
            lemma_filter_take(all, p, i as int);
            lemma_filter_sum_prefix(all, p, f, i + 1);
            lemma_sum_push(all.take(i as int).filter(p), f, all[i as int]);
        }
        if !v[i].is_dir {
            total += v[i].size;
        }
        i += 1;
    }
    assert(all.take(i as int) =~= all);
    total
}

/// How many of the records are files.
pub fn count_files(v: &Vec<FileRecord>) -> (r: usize)
    ensures
        r == files(records(v@)).len(),
{
    let ghost all = records(v@);
    let ghost p = is_file();
    let mut n: usize = 0;
    let mut i: usize = 0;
    proof {
        lemma_filter_ends(all, p);
    }
    while i < v.len()
        invariant
            i <= v@.len(),
            n <= i,
            all == records(v@),
            p == is_file(),
            n == all.take(i as int).filter(p).len(),
        decreases v@.len() - i,
    {
        proof {
            lemma_filter_take(all, p, i as int);
        }
        if !v[i].is_dir {
            n += 1;
        }
        i += 1;
    }
    assert(all.take(i as int) =~= all);
    n
}

/// How many of the records are directories.
pub fn count_dirs(v: &Vec<FileRecord>) -> (r: usize)
    ensures
        r == records(v@).filter(is_dir_record()).len(),
{
    let ghost all = records(v@);
    let ghost p = is_dir_record();
    let mut n: usize = 0;
    let mut i: usize = 0;
    proof {
        lemma_filter_ends(all, p);
    }
    while i < v.len()
        invariant
            i <= v@.len(),
            n <= i,
            all == records(v@),
            p == is_dir_record(),
            n == all.take(i as int).filter(p).len(),
        decreases v@.len() - i,
    {
        proof {
            lemma_filter_take(all, p, i as int);
        }
        if v[i].is_dir {
            n += 1;
        }
        i += 1;
    }
    assert(all.take(i as int) =~= all);
    n
}

} // verus!
