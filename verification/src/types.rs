//! What a scan finds.
use crate::paths::opt_view;
use vstd::prelude::*;

verus! {

/// The system the library works for.
#[derive(Clone, Copy, PartialEq, Eq, Structural, Debug)]
pub enum Platform {
    Windows,
    MacOs,
    Other,
}

/// A single file or directory captured during a scan.
#[derive(Debug, PartialEq)]
pub struct FileRecord {
    /// Stable within one scan session (sequential).
    pub id: u64,
    /// Full path. Extended-length aware on Windows.
    pub path: String,
    pub name: String,
    /// Lowercased extension without the dot, if any (files only).
    pub ext: Option<String>,
    /// Size in bytes (0 for directories; directory totals are computed in reports).
    pub size: u64,
    /// Unix seconds; 0 when the filesystem does not report the value.
    pub created: i64,
    pub modified: i64,
    pub accessed: i64,
    pub is_dir: bool,
    /// Raw platform attribute bits (Windows: `FILE_ATTRIBUTE_*`; 0 elsewhere).
    pub attributes: u32,
}

/// A path the scanner could not read (access denied, broken entry, ...).
#[derive(Debug, PartialEq)]
pub struct SkippedPath {
    pub path: String,
    pub reason: String,
}

/// What a `FileRecord` holds.
#[verifier::ext_equal]
pub struct Record {
    pub id: nat,
    pub path: Seq<char>,
    pub name: Seq<char>,
    pub ext: Option<Seq<char>>,
    pub size: u64,
    pub created: i64,
    pub modified: i64,
    pub accessed: i64,
    pub is_dir: bool,
    pub attributes: u32,
}

/// What a `SkippedPath` holds.
#[verifier::ext_equal]
pub struct Skipped {
    pub path: Seq<char>,
    pub reason: Seq<char>,
}

impl View for FileRecord {
    type V = Record;

    open spec fn view(&self) -> Record {
        Record {
            id: self.id as nat,
            path: self.path@,
            name: self.name@,
            ext: opt_view(self.ext),
            size: self.size,
            created: self.created,
            modified: self.modified,
            accessed: self.accessed,
            is_dir: self.is_dir,
            attributes: self.attributes,
        }
    }
}

impl View for SkippedPath {
    type V = Skipped;

    open spec fn view(&self) -> Skipped {
        Skipped { path: self.path@, reason: self.reason@ }
    }
}

/// The views of a list of records.
pub open spec fn records(v: Seq<FileRecord>) -> Seq<Record> {
    v.map_values(|r: FileRecord| r@)
}

/// The views of a list of skipped paths.
pub open spec fn skips(v: Seq<SkippedPath>) -> Seq<Skipped> {
    v.map_values(|s: SkippedPath| s@)
}

impl Clone for FileRecord {
    fn clone(&self) -> (r: Self)
        ensures
            r == *self,
    {
        FileRecord {
            id: self.id,
            path: self.path.clone(),
            name: self.name.clone(),
            ext: match &self.ext {
                Some(e) => Some(e.clone()),
                None => None,
            },
            size: self.size,
            created: self.created,
            modified: self.modified,
            accessed: self.accessed,
            is_dir: self.is_dir,
            attributes: self.attributes,
        }
    }
}

impl Clone for SkippedPath {
    fn clone(&self) -> (r: Self)
        ensures
            r == *self,
    {
        SkippedPath { path: self.path.clone(), reason: self.reason.clone() }
    }
}

/// A time as the file system reports it, in whole seconds from the Unix epoch.
#[derive(Clone, Copy, PartialEq, Eq, Structural, Debug)]
pub enum FileTime {
    /// Not reported.
    Unknown,
    /// This long after the epoch.
    After { secs: u64 },
    /// This long before the epoch.
    Before { secs: u64 },
}

/// `n` as a signed number of 64 bits.
pub open spec fn wrapped_i64(n: u64) -> int {
    if n <= i64::MAX {
        n as int
    } else {
        n - 0x1_0000_0000_0000_0000
    }
}

/// The Unix seconds of a time.
pub open spec fn unix_seconds(t: FileTime) -> int {
    match t {
        FileTime::After { secs } => wrapped_i64(secs),
        FileTime::Before { secs } => -wrapped_i64(secs),
        FileTime::Unknown => 0,
    }
}

/// Unix seconds, negative before the epoch and 0 where the time is unknown.
pub fn systime_to_unix(t: FileTime) -> (r: i64)
    requires
        t matches FileTime::Before { secs } ==> secs != 0x8000_0000_0000_0000,
    ensures
        r == unix_seconds(t),
        r == match t {
            FileTime::After { secs } => wrapped_i64(secs),
            FileTime::Before { secs } => -wrapped_i64(secs),
            FileTime::Unknown => 0,
        },
{
    match t {
        FileTime::After { secs } => crate::codec::i64_from_bits(secs),
        FileTime::Before { secs } => -crate::codec::i64_from_bits(secs),
        FileTime::Unknown => 0,
    }
}

/// A time within the range of signed seconds is itself; one beyond wraps around.
pub proof fn law_seconds_wrap_at_the_sign(n: u64)
    ensures
        n < 0x8000_0000_0000_0000 ==> wrapped_i64(n) == n,
        n >= 0x8000_0000_0000_0000 ==> wrapped_i64(n) == n - 0x1_0000_0000_0000_0000,
{
}

/// Seconds after the epoch count up from it and seconds before it count down, so
/// that a later time has the larger number; an unknown time is 0.
pub proof fn law_times_count_from_the_epoch(a: u64, b: u64)
    requires
        a < b < 0x8000_0000_0000_0000,
    ensures
        unix_seconds(FileTime::After { secs: a }) == a,
        unix_seconds(FileTime::Before { secs: b }) + b == 0,
        unix_seconds(FileTime::After { secs: a }) < unix_seconds(FileTime::After { secs: b }),
        unix_seconds(FileTime::Before { secs: b }) < unix_seconds(FileTime::Before { secs: a }),
        unix_seconds(FileTime::Unknown) == 0,
{
}

} // verus!
