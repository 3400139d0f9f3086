//! NTFS USN change-journal access for differential rescans.
//!
//! The journal is the filesystem's own log of every create/delete/rename/
//! write, keyed by the changed file's PARENT directory id (FRN). Reading it
//! answers "which directories changed since checkpoint X?" without walking the
//! tree - the whole point of a fast rescan.
//!
//! The caller opens the volume and hands in what the journal returns. Every
//! failure degrades to `Unavailable(reason)`: the caller falls back to a full
//! walk, never to wrong data.
use crate::codec::{get_le, i64_from_bits, i64_of_bits, le_value, lemma_pow256};
use crate::paths::{opt_view, parse, prefix, PathInfo, PathStyle, PrefixKind};
use crate::text::{
    chars_of, list_contains, lowercase, same_chars, starts_with, string_of, to_lowercase, views,
};
use crate::types::Platform;
use crate::utf16::{decoded, from_utf16_lossy};
use std::collections::HashSet;
use vstd::prelude::*;

verus! {

broadcast use vstd::std_specs::hash::group_hash_axioms;

/// Where the journal stood when a snapshot was taken. `next_usn` is the first
/// record id we have NOT yet seen.
#[derive(Debug, Clone, Copy, PartialEq, Eq, Structural)]
pub struct UsnCheckpoint {
    pub journal_id: u64,
    pub next_usn: i64,
    pub volume_serial: u32,
}

/// Outcome of asking the journal what changed since a checkpoint.
#[derive(Debug)]
pub enum DeltaVerdict {
    /// Lowercased full paths of directories whose direct children changed,
    /// each once. May be empty: nothing changed under the root.
    Dirty(Vec<String>),
    /// The journal cannot vouch for the interval; do a full scan.
    Unavailable(&'static str),
}

// ------------------------------------------------------------------ volume --
/// Drive letter of an absolute local path (`C`), or None for UNC etc.
pub open spec fn letter_of(root: Seq<char>) -> Option<char> {
    match prefix(PathStyle::Windows, root) {
        Some(p) => if (p.kind == PrefixKind::Disk || p.kind == PrefixKind::VerbatimDisk)
            && p.first.len() > 0 {
            Some(p.first[0])
        } else {
            None
        },
        None => None,
    }
}

pub fn drive_letter(root: &str) -> (r: Option<char>)
    ensures
        r == letter_of(root@),
{
    let info: PathInfo = parse(PathStyle::Windows, root);
    match &info.prefix {
        Some(p) => match p.kind {
            PrefixKind::Disk | PrefixKind::VerbatimDisk => if p.first.len() > 0 {
                Some(p.first[0])
            } else {
                None
            },
            _ => None,
        },
        None => None,
    }
}

/// What `FSCTL_QUERY_USN_JOURNAL` tells.
#[derive(Debug, Clone, Copy, PartialEq, Eq, Structural)]
pub struct Journal {
    pub id: u64,
    pub first_usn: i64,
    pub next_usn: i64,
}

/// The three numbers at the start of the answer.
pub open spec fn journal_of(out: Seq<u8>) -> Option<Journal> {
    if out.len() < 24 {
        None
    } else {
        Some(
            Journal {
                id: le_value(out.subrange(0, 8)) as u64,
                first_usn: i64_of_bits(le_value(out.subrange(8, 16))),
                next_usn: i64_of_bits(le_value(out.subrange(16, 24))),
            },
        )
    }
}

/// Reads the answer of a query; one that is too short is no answer.
pub fn parse_journal(out: &[u8]) -> (r: Option<Journal>)
    ensures
        r == journal_of(out@),
{
    if out.len() < 24 {
        return None;
    }
    proof {
        lemma_pow256();
    }
    Some(
        Journal {
            id: get_le(out, 0, 8),
            first_usn: i64_from_bits(get_le(out, 8, 16)),
            next_usn: i64_from_bits(get_le(out, 16, 24)),
        },
    )
}

/// What was found out about the volume of a root.
#[derive(Debug, Clone, Copy)]
pub struct VolumeFacts {
    pub serial: Option<u32>,
    pub opened: bool,
    pub journal: Option<Journal>,
}

/// Where the journal of the volume of `root` stands now.
pub fn checkpoint_for(platform: Platform, root: &str, facts: VolumeFacts) -> (r: Option<
    UsnCheckpoint,
>)
    ensures
        r == match (platform, letter_of(root@), facts.opened, facts.journal, facts.serial) {
            (Platform::Windows, Some(_), true, Some(j), Some(serial)) => Some(
                UsnCheckpoint {
                    journal_id: j.id,
                    next_usn: j.next_usn,
                    volume_serial: serial,
                },
            ),
            _ => None,
        },
{
    match (platform, drive_letter(root), facts.opened, facts.journal, facts.serial) {
        (Platform::Windows, Some(_), true, Some(j), Some(serial)) => Some(
            UsnCheckpoint { journal_id: j.id, next_usn: j.next_usn, volume_serial: serial },
        ),
        _ => None,
    }
}

/// Why the journal cannot vouch for the time since a checkpoint.
pub open spec fn refusal(
    platform: Platform,
    root: Seq<char>,
    cp: UsnCheckpoint,
    facts: VolumeFacts,
) -> Option<Seq<char>> {
    if !(platform is Windows) {
        Some("usn journal is Windows-only"@)
    } else if letter_of(root) is None {
        Some("root has no drive letter"@)
    } else if facts.serial != Some(cp.volume_serial) {
        Some("volume changed"@)
    } else if !facts.opened {
        Some("cannot open volume"@)
    } else {
        match facts.journal {
            None => Some("no usn journal"@),
            Some(j) => if j.id != cp.journal_id {
                Some("journal recreated"@)
            } else if cp.next_usn < j.first_usn {
                Some("journal wrapped"@)
            } else if cp.next_usn > j.next_usn {
                Some("checkpoint ahead of journal"@)
            } else {
                None
            },
        }
    }
}

/// The part of the journal to read: from the checkpoint to where it stands.
pub fn journal_interval(
    platform: Platform,
    root: &str,
    cp: &UsnCheckpoint,
    facts: VolumeFacts,
) -> (r: Result<(i64, i64), &'static str>)
    ensures
        match r {
            Ok(i) => refusal(platform, root@, *cp, facts) is None && facts.journal is Some && i.0
                == cp.next_usn && i.1 == facts.journal->0.next_usn,
            Err(why) => refusal(platform, root@, *cp, facts) == Some(why@),
        },
{
    match platform {
        Platform::Windows => {},
        _ => {
            return Err("usn journal is Windows-only");
        },
    }
    if drive_letter(root).is_none() {
        return Err("root has no drive letter");
    }
    match facts.serial {
        Some(s) if s == cp.volume_serial => {},
        _ => {
            return Err("volume changed");
        },
    }
    if !facts.opened {
        return Err("cannot open volume");
    }
    match facts.journal {
        None => Err("no usn journal"),
        Some(j) => if j.id != cp.journal_id {
            Err("journal recreated")
        } else if cp.next_usn < j.first_usn {
            Err("journal wrapped")
        } else if cp.next_usn > j.next_usn {
            Err("checkpoint ahead of journal")
        } else {
            Ok((cp.next_usn, j.next_usn))
        },
    }
}

// ----------------------------------------------------------------- records --
/// Cap on volume-wide unique parent FRNs we are willing to resolve. Each
/// resolution is one file open (~1ms under EDR); past this a full walk is
/// competitive anyway.
pub const MAX_FRN_RESOLVE: usize = 60_000;

/// The parent ids of the records from an offset on. A record of fewer than 60
/// bytes, or one that goes past the end, ends the list; records of another
/// version than 2 are passed over.
pub open spec fn record_parents(buf: Seq<u8>, off: int) -> Seq<u64>
    decreases buf.len() - off,
{
    if off < 0 || off + 60 > buf.len() {
        Seq::empty()
    } else {
        let len = le_value(buf.subrange(off, off + 4)) as int;
        if len < 60 || off + len > buf.len() {
            Seq::empty()
        } else {
            let rest = record_parents(buf, off + len);
            if le_value(buf.subrange(off + 4, off + 6)) == 2 {
                seq![le_value(buf.subrange(off + 16, off + 24)) as u64] + rest
            } else {
                rest
            }
        }
    }
}

/// The list with an id that it does not hold yet.
pub open spec fn with_id(known: Seq<u64>, id: u64) -> Seq<u64> {
    if known.contains(id) {
        known
    } else {
        known.push(id)
    }
}

/// The list with all the ids that it does not hold yet, in order.
pub open spec fn with_ids(known: Seq<u64>, ids: Seq<u64>) -> Seq<u64>
    decreases ids.len(),
{
    if ids.len() == 0 {
        known
    } else {
        with_ids(with_id(known, ids[0]), ids.skip(1))
    }
}

proof fn lemma_with_ids_grows(known: Seq<u64>, ids: Seq<u64>)
    ensures
        known.len() <= with_ids(known, ids).len(),
    decreases ids.len(),
{
    if ids.len() > 0 {
        lemma_with_ids_grows(with_id(known, ids[0]), ids.skip(1));
    }
}

/// What to do after a part of the journal was read.
#[derive(Debug, Clone, Copy, PartialEq, Eq, Structural)]
pub enum ReadStep {
    /// Read on from `usn`.
    More { usn: i64 },
    /// Everything up to the target was read.
    Done,
    /// The journal refused, or too much has changed.
    Failed,
}

/// The unique parent ids of the records between two positions of the journal.
pub struct FrnCollector {
    seen: HashSet<u64>,
    ids: Vec<u64>,
    usn: i64,
    target: i64,
}

impl FrnCollector {
    /// The ids so far, each once, in the order in which they came.
    pub closed spec fn parents(&self) -> Seq<u64> {
        self.ids@
    }

    /// Where the next read starts.
    pub closed spec fn at(&self) -> i64 {
        self.usn
    }

    pub closed spec fn end(&self) -> i64 {
        self.target
    }

    pub closed spec fn wf(&self) -> bool {
        &&& self.ids@.no_duplicates()
        &&& self.ids@.len() <= MAX_FRN_RESOLVE
        &&& forall|id: u64| #[trigger] self.seen@.contains(id) <==> self.ids@.contains(id)
    }

    pub fn new(start: i64, target: i64) -> (r: Self)
        ensures
            r.wf(),
            r.parents() == Seq::<u64>::empty(),
            r.at() == start,
            r.end() == target,
    {
        FrnCollector { seen: HashSet::new(), ids: Vec::new(), usn: start, target }
    }

    /// Whether anything is to be read at all.
    pub fn first(&self) -> (r: ReadStep)
        ensures
            r == if self.at() >= self.end() {
                ReadStep::Done
            } else {
                ReadStep::More { usn: self.at() }
            },
    {
        if self.usn >= self.target {
            ReadStep::Done
        } else {
            ReadStep::More { usn: self.usn }
        }
    }

    /// What comes after an answer that goes on at `next`.
    pub open spec fn step_after(at: i64, end: i64, next: i64) -> ReadStep {
        if next <= at || next >= end {
            ReadStep::Done
        } else {
            ReadStep::More { usn: next }
        }
    }

    /// Takes one answer of the journal (`None` where the read failed). Stops
    /// where the journal has no more, makes no progress or reached the target.
    pub fn feed(&mut self, answer: Option<&[u8]>) -> (r: ReadStep)
        requires
            old(self).wf(),
        ensures
            final(self).wf(),
            final(self).end() == old(self).end(),
            match answer {
                None => r is Failed,
                Some(buf) => if buf@.len() < 8 {
                    r is Done && final(self).parents() == old(self).parents()
                } else {
                    let all = with_ids(old(self).parents(), record_parents(buf@, 8));
                    let next = i64_of_bits(le_value(buf@.subrange(0, 8)));
                    if all.len() > MAX_FRN_RESOLVE {
                        r is Failed
                    } else {
                        &&& final(self).parents() == all
                        &&& r == if next <= old(self).at() || next >= old(self).end() {
                            ReadStep::Done
                        } else {
                            ReadStep::More { usn: next }
                        }
                        &&& r is More ==> final(self).at() == next
                        &&& r == Self::step_after(old(self).at(), old(self).end(), next)
                    }
                },
            },
    {
        let buf: &[u8] = match answer {
            Some(b) => b,
            None => {
                return ReadStep::Failed;
            },
        };
        let n: usize = buf.len();
        if n < 8 {
            return ReadStep::Done;
        }
        proof {
            lemma_pow256();
        }
        let next: i64 = i64_from_bits(get_le(buf, 0, 8));
        let mut off: usize = 8;
        let mut more: bool = true;
        let ghost all = with_ids(old(self).parents(), record_parents(buf@, 8));
        while more
            invariant
                self.wf(),
                self.usn == old(self).usn,
                self.target == old(self).target,
                8 <= off <= n == buf@.len(),
                all == with_ids(old(self).parents(), record_parents(buf@, 8)),
                more ==> all == with_ids(self.ids@, record_parents(buf@, off as int)),
                !more ==> all == self.ids@,
                buf@.len() >= 8,
                answer == Some(buf),
            decreases n - off, (if more {
                1int
            } else {
                0int
            }),
        {
            proof {
                lemma_pow256();
            }
            if n - off < 60 {
                more = false;
                continue;
            }
            let len: u64 = get_le(buf, off, off + 4);
            if len < 60 || len > (n - off) as u64 {
                more = false;
                continue;
            }
            let ghost rest = record_parents(buf@, off + len);
            if get_le(buf, off + 4, off + 6) == 2 {
                let id: u64 = get_le(buf, off + 16, off + 24);
                let ghost known = self.ids@;
                proof {
                    assert((seq![id] + rest).skip(1) =~= rest);
                    assert((seq![id] + rest)[0] == id);
                    assert(all == with_ids(with_id(known, id), rest));
                }
                if !self.seen.contains(&id) {
                    if self.ids.len() >= MAX_FRN_RESOLVE {
                        proof {
                            lemma_with_ids_grows(with_id(known, id), rest);
                        }
                        return ReadStep::Failed;
                    }
                    self.seen.insert(id);
                    self.ids.push(id);
                    assert forall|x: u64| #[trigger]
                        self.seen@.contains(x) <==> self.ids@.contains(x) by {
                        if known.contains(x) {
                            let j = choose|j: int| 0 <= j < known.len() && known[j] == x;
                            assert(self.ids@[j] == x);
                        }
                        if x == id {
                            assert(self.ids@[known.len() as int] == x);
                        }
                        if self.ids@.contains(x) {
                            let j = choose|j: int| 0 <= j < self.ids@.len() && self.ids@[j] == x;
                            if j < known.len() {
                                assert(known[j] == x);
                            }
                        }
                    }
                }
            }
            off = off + len as usize;
        }
        if next <= self.usn {
            return ReadStep::Done;
        }
        self.usn = next;
        if self.usn >= self.target {
            ReadStep::Done
        } else {
            ReadStep::More { usn: self.usn }
        }
    }

    /// The ids that were collected.
    pub fn into_parents(self) -> (r: Vec<u64>)
        ensures
            r@ == self.parents(),
    {
        self.ids
    }
}

// ------------------------------------------------------------------- paths --
/// A path without the `\\?\` in front of it.
pub open spec fn without_verbatim(s: Seq<char>) -> Seq<char> {
    if "\\\\?\\"@.is_prefix_of(s) {
        s.skip("\\\\?\\"@.len() as int)
    } else {
        s
    }
}

/// The path that `GetFinalPathNameByHandleW` wrote into `buf`: it returned the
/// number of units, 0 where it failed, and more than fit where `buf` is too
/// small.
pub fn final_path(buf: &[u16], n: usize) -> (r: Option<String>)
    ensures
        opt_view(r) == if n == 0 || n >= buf@.len() {
            None
        } else {
            Some(without_verbatim(decoded(buf@.subrange(0, n as int))))
        },
{
    if n == 0 || n >= buf.len() {
        return None;
    }
    let s: String = from_utf16_lossy(buf, 0, n);
    if starts_with(s.as_str(), "\\\\?\\") {
        let cs: Vec<char> = chars_of(s.as_str());
        let skip: usize = chars_of("\\\\?\\").len();
        let out: String = string_of(&cs, skip, cs.len());
        assert(out@ =~= s@.skip(skip as int));
        Some(out)
    } else {
        Some(s)
    }
}

/// Text without the slashes at its end.
pub open spec fn without_slashes(s: Seq<char>) -> Seq<char>
    decreases s.len(),
{
    if s.len() > 0 && (s.last() == '\\' || s.last() == '/') {
        without_slashes(s.drop_last())
    } else {
        s
    }
}

/// How the root is compared: without slashes at its end, in lower case.
pub open spec fn root_key(root: Seq<char>) -> Seq<char> {
    lowercase(without_slashes(root))
}

fn lower_root(root: &str) -> (r: String)
    ensures
        r@ == root_key(root@),
{
    let cs: Vec<char> = chars_of(root);
    let mut n: usize = cs.len();
    assert(cs@.take(n as int) =~= cs@);
    while n > 0 && (cs[n - 1] == '\\' || cs[n - 1] == '/')
        invariant
            n <= cs@.len(),
            without_slashes(cs@.take(n as int)) == without_slashes(root@),
        decreases n,
    {
        assert(cs@.take(n as int).drop_last() =~= cs@.take(n - 1));
        n -= 1;
    }
    let out: String = string_of(&cs, 0, n);
    assert(out@ =~= cs@.take(n as int));
    to_lowercase(out.as_str())
}

/// A path in lower case is the root or below it.
pub open spec fn at_or_under(root_key: Seq<char>, lower: Seq<char>) -> bool {
    lower == root_key || (root_key + seq!['\\']).is_prefix_of(lower)
}

fn is_at_or_under(root_key: &str, lower: &str) -> (r: bool)
    ensures
        r == at_or_under(root_key@, lower@),
{
    let mut below: String = crate::text::copy(root_key);
    below.push('\\');
    assert(below@ =~= root_key@ + seq!['\\']);
    same_chars(&chars_of(root_key), &chars_of(lower)) || starts_with(lower, below.as_str())
}

/// The paths in lower case that are at or under the root, each once. A path
/// that could not be resolved (the directory is gone) is left out.
pub open spec fn dirty_paths(root_key: Seq<char>, paths: Seq<Option<String>>) -> Seq<Seq<char>>
    decreases paths.len(),
{
    if paths.len() == 0 {
        Seq::empty()
    } else {
        let before = dirty_paths(root_key, paths.drop_last());
        match paths.last() {
            Some(p) => if at_or_under(root_key, lowercase(p@)) && !before.contains(lowercase(p@)) {
                before.push(lowercase(p@))
            } else {
                before
            },
            None => before,
        }
    }
}

proof fn lemma_dirty_grows(root_key: Seq<char>, paths: Seq<Option<String>>, i: int)
    requires
        0 <= i <= paths.len(),
    ensures
        dirty_paths(root_key, paths.take(i)).len() <= dirty_paths(root_key, paths).len(),
    decreases paths.len() - i,
{
    if i < paths.len() {
        lemma_dirty_grows(root_key, paths, i + 1);
        assert(paths.take(i + 1).drop_last() =~= paths.take(i));
    } else {
        assert(paths.take(i) =~= paths);
    }
}

/// Which directories at or under `root` changed since the checkpoint. `parents`
/// holds the path of each directory in which something changed, and is `None`
/// where the journal could not be read to its end.
pub fn changed_dirs_since(
    platform: Platform,
    root: &str,
    cp: &UsnCheckpoint,
    max_dirty: usize,
    facts: VolumeFacts,
    parents: &Option<Vec<Option<String>>>,
) -> (r: DeltaVerdict)
    ensures
        match r {
            DeltaVerdict::Unavailable(why) => Some(why@) == match refusal(
                platform,
                root@,
                *cp,
                facts,
            ) {
                Some(text) => Some(text),
                None => match *parents {
                    None => Some("too many changes on volume"@),
                    Some(paths) => if dirty_paths(root_key(root@), paths@).len() > max_dirty {
                        Some("too many changes under root"@)
                    } else {
                        None
                    },
                },
            },
            DeltaVerdict::Dirty(dirs) => {
                &&& refusal(platform, root@, *cp, facts) is None
                &&& *parents matches Some(paths)
                &&& views(dirs@) == dirty_paths(root_key(root@), paths@)
                &&& dirs@.len() <= max_dirty
            },
        },
{
    match journal_interval(platform, root, cp, facts) {
        Err(why) => {
            return DeltaVerdict::Unavailable(why);
        },
        Ok(_) => {},
    }
    let paths: &Vec<Option<String>> = match parents {
        None => {
            return DeltaVerdict::Unavailable("too many changes on volume");
        },
        Some(p) => p,
    };
    let key: String = lower_root(root);
    let mut dirty: Vec<String> = Vec::new();
    let mut i: usize = 0;
    let n: usize = paths.len();
    assert(views(dirty@) =~= Seq::empty());
    while i < n
        invariant
            i <= n == paths@.len(),
            *parents == Some(*paths),
            key@ == root_key(root@),
            refusal(platform, root@, *cp, facts) is None,
            views(dirty@) == dirty_paths(key@, paths@.take(i as int)),
            dirty@.len() <= max_dirty,
        decreases n - i,
    {
        proof {
            assert(paths@.take(i + 1).drop_last() =~= paths@.take(i as int));
            lemma_dirty_grows(key@, paths@, i + 1);
        }
        match &paths[i] {
            Some(p) => {
                let lower: String = to_lowercase(p.as_str());
                if is_at_or_under(key.as_str(), lower.as_str()) && !list_contains(
                    &dirty,
                    lower.as_str(),
                ) {
                    let ghost before = dirty@;
                    dirty.push(lower);
                    assert(views(dirty@) =~= views(before).push(lower@));
                    assert(views(dirty@).len() == dirty@.len());
                    if dirty.len() > max_dirty {
                        return DeltaVerdict::Unavailable("too many changes under root");
                    }
                }
            },
            None => {},
        }
        i += 1;
    }
    assert(paths@.take(n as int) =~= paths@);
    assert(views(dirty@).len() == dirty@.len());
    DeltaVerdict::Dirty(dirty)
}

/// A dirty directory is at or under the root, and none is listed twice.
pub proof fn law_dirty_dirs_are_under_the_root(root_key: Seq<char>, paths: Seq<Option<String>>)
    ensures
        dirty_paths(root_key, paths).no_duplicates(),
        forall|i: int|
            0 <= i < dirty_paths(root_key, paths).len() ==> at_or_under(
                root_key,
                #[trigger] dirty_paths(root_key, paths)[i],
            ),
    decreases paths.len(),
{
    if paths.len() > 0 {
        law_dirty_dirs_are_under_the_root(root_key, paths.drop_last());
    }
}

/// No change under the root is missed: the directory of every path that was
/// resolved and is at or under the root is among the dirty ones.
pub proof fn law_no_change_is_missed(root_key: Seq<char>, paths: Seq<Option<String>>, i: int)
    requires
        0 <= i < paths.len(),
        paths[i] is Some,
        at_or_under(root_key, lowercase(paths[i]->0@)),
    ensures
        dirty_paths(root_key, paths).contains(lowercase(paths[i]->0@)),
    decreases paths.len(),
{
    let x = lowercase(paths[i]->0@);
    let before = dirty_paths(root_key, paths.drop_last());
    let now = dirty_paths(root_key, paths);
    if i < paths.len() - 1 {
        law_no_change_is_missed(root_key, paths.drop_last(), i);
    }
    if before.contains(x) {
        let j = choose|j: int| 0 <= j < before.len() && before[j] == x;
        assert(now[j] == x);
    } else {
        assert(now[before.len() as int] == x);
    }
}

/// A root on a drive has its letter, in upper case; a path away from any drive has
/// none.
pub proof fn law_a_root_has_the_letter_of_its_drive(c: char, rest: Seq<char>)
    requires
        'a' <= c <= 'z' || 'A' <= c <= 'Z',
    ensures
        c <= 'Z' ==> letter_of(seq![c, ':'] + rest) == Some(c),
        c >= 'a' ==> (letter_of(seq![c, ':'] + rest) matches Some(u) && u as u32 == c as u32 - 32),
        rest.len() > 0 && rest[0] != ':' ==> letter_of(seq!['/'] + rest) is None,
{
    crate::paths::law_a_letter_and_a_colon_name_a_drive(c, rest);
    let s = seq!['/'] + rest;
    assert(s[0] == '/');
    if rest.len() > 0 {
        assert(s[1] == rest[0]);
    }
}

/// A journal vouches for the time since a checkpoint exactly where the root is on a
/// drive of the volume that the checkpoint was taken on, the volume can be read,
/// its journal is the same one, and the checkpoint lies within it.
pub proof fn law_when_the_journal_vouches(
    platform: Platform,
    root: Seq<char>,
    cp: UsnCheckpoint,
    facts: VolumeFacts,
)
    ensures
        refusal(platform, root, cp, facts) is None <==> {
            &&& platform is Windows
            &&& letter_of(root) is Some
            &&& facts.serial == Some(cp.volume_serial)
            &&& facts.opened
            &&& facts.journal matches Some(j) && j.id == cp.journal_id && j.first_usn
                <= cp.next_usn <= j.next_usn
        },
{
}

/// A directory is dirty if it is the root or lies below it: a path that only starts
/// like the root does not.
pub proof fn law_below_means_behind_a_separator(root: Seq<char>, rest: Seq<char>)
    ensures
        at_or_under(root, root),
        at_or_under(root, root + seq!['\\'] + rest),
        rest.len() > 0 && rest[0] != '\\' ==> !at_or_under(root, root + rest),
{
    let p = root + seq!['\\'];
    assert((p + rest).subrange(0, p.len() as int) =~= p);
    if rest.len() > 0 && rest[0] != '\\' {
        let s = root + rest;
        assert(s[root.len() as int] == rest[0]);
        if p.is_prefix_of(s) {
            assert(s.subrange(0, p.len() as int)[root.len() as int] == p[root.len() as int]);
        }
    }
}

/// The verbatim marker is taken off a path, and nothing else is.
pub proof fn law_the_verbatim_marker_goes(s: Seq<char>)
    ensures
        without_verbatim(seq!['\\', '\\', '?', '\\'] + s) == s,
        s.len() > 0 && s[0] != '\\' ==> without_verbatim(s) == s,
{
    reveal_strlit("\\\\?\\");
    let m = seq!['\\', '\\', '?', '\\'];
    assert("\\\\?\\"@ =~= m);
    assert((m + s).subrange(0, 4) =~= m);
    assert((m + s).skip(4) =~= s);
    if s.len() > 0 && s[0] != '\\' && m.is_prefix_of(s) {
        assert(s.subrange(0, 4)[0] == m[0]);
    }
}

/// Slashes at the end of the root do not count.
pub proof fn law_slashes_at_the_end_do_not_count(s: Seq<char>)
    ensures
        without_slashes(s.push('\\')) == without_slashes(s),
        without_slashes(s.push('/')) == without_slashes(s),
        s.len() > 0 && s.last() != '\\' && s.last() != '/' ==> without_slashes(s) == s,
        root_key(s) == lowercase(without_slashes(s)),
{
    assert(s.push('\\').drop_last() =~= s);
    assert(s.push('/').drop_last() =~= s);
}

/// However much of the journal is read, no more than 60,000 directories are asked
/// for, and each of them once.
pub proof fn law_only_so_many_directories_are_asked_for(c: FrnCollector)
    requires
        c.wf(),
    ensures
        c.parents().len() <= 60_000,
        c.parents().no_duplicates(),
{
}

} // verus!
