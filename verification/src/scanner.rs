//! Directory scans: what a listing turns into, the walk over a tree, and the
//! differential rescan that serves unchanged directories from a snapshot.
//!
//! Reading a directory is left to the caller. A `Walk` says which directories
//! to read next and takes the listings back, until there is nothing left.
use crate::error::CoreError;
use crate::globs::{
    all_plain, any_matches, compile, globs_of, is_match, pattern_error, plain, set_globs, slashed,
};
use crate::order::{
    is_sorted_copy, is_stable_order, key_views, lemma_key_total, permuted, sort_by_keys, SortKey,
};
use crate::paths::{extension_of, PathStyle};
use crate::text::{chars_of, copy, lex_lt, to_lowercase, views};
use crate::types::{records, skips, FileRecord, Record, Skipped, SkippedPath};
use vstd::prelude::*;

verus! {

#[derive(Debug)]
pub struct ScanOptions {
    /// Glob patterns excluded from the scan (matched against the full path,
    /// case-insensitive; `*` may cross directory separators).
    pub excludes: Vec<String>,
}

impl Default for ScanOptions {
    fn default() -> (r: Self)
        ensures
            r.excludes@.len() == 0,
    {
        ScanOptions { excludes: Vec::new() }
    }
}

#[derive(Debug)]
pub struct ScanOutcome {
    pub records: Vec<FileRecord>,
    pub skipped: Vec<SkippedPath>,
}

impl Default for ScanOutcome {
    fn default() -> (r: Self)
        ensures
            r.records@.len() == 0,
            r.skipped@.len() == 0,
    {
        ScanOutcome { records: Vec::new(), skipped: Vec::new() }
    }
}

// ---------------------------------------------------------------- listings --
#[derive(Clone, Copy, PartialEq, Eq, Structural, Debug)]
pub enum EntryKind {
    File,
    Directory,
    /// A symlink, junction or other reparse point.
    Link,
}

/// What the file system says of an entry.
#[derive(Clone, Copy, PartialEq, Eq, Structural, Debug)]
pub struct EntryMeta {
    pub len: u64,
    /// Unix seconds.
    pub created: i64,
    pub modified: i64,
    pub accessed: i64,
    pub attributes: u32,
}

/// One entry as the file system lists it.
pub enum DirEntry {
    /// The entry itself could not be read.
    Unreadable { reason: String },
    Found {
        path: String,
        name: String,
        kind: Result<EntryKind, String>,
        meta: Result<EntryMeta, String>,
    },
}

/// One directory's direct children, as the walker sees them.
pub struct DirListing {
    pub records: Vec<FileRecord>,
    pub skipped: Vec<SkippedPath>,
    pub subdirs: Vec<String>,
}

/// What a `DirListing` holds.
#[verifier::ext_equal]
pub struct Listing {
    pub records: Seq<Record>,
    pub skipped: Seq<Skipped>,
    pub subdirs: Seq<Seq<char>>,
}

impl View for DirListing {
    type V = Listing;

    open spec fn view(&self) -> Listing {
        Listing {
            records: records(self.records@),
            skipped: skips(self.skipped@),
            subdirs: views(self.subdirs@),
        }
    }
}

/// The record of a readable entry: directories have no size and no extension.
pub open spec fn entry_record(
    style: PathStyle,
    path: Seq<char>,
    name: Seq<char>,
    is_dir: bool,
    m: EntryMeta,
) -> Record {
    Record {
        id: 0,
        path,
        name,
        ext: crate::scan_cache::derived_ext(style, path, is_dir),
        size: if is_dir {
            0
        } else {
            m.len
        },
        created: m.created,
        modified: m.modified,
        accessed: m.accessed,
        is_dir,
        attributes: m.attributes,
    }
}

pub open spec fn with_skip(l: Listing, path: Seq<char>, reason: Seq<char>) -> Listing {
    Listing { skipped: l.skipped.push(Skipped { path, reason }), ..l }
}

/// A listing with one entry more. Excluded entries and links leave no trace;
/// what cannot be read is noted.
pub open spec fn with_entry(
    style: PathStyle,
    dir: Seq<char>,
    l: Listing,
    e: DirEntry,
    excluded: bool,
) -> Listing {
    match e {
        DirEntry::Unreadable { reason } => with_skip(l, dir, reason@),
        DirEntry::Found { path, name, kind, meta } => if excluded {
            l
        } else {
            match kind {
                Err(reason) => with_skip(l, path@, reason@),
                Ok(EntryKind::Link) => l,
                Ok(k) => match meta {
                    Err(reason) => with_skip(l, path@, reason@),
                    Ok(m) => Listing {
                        records: l.records.push(
                            entry_record(style, path@, name@, k == EntryKind::Directory, m),
                        ),
                        skipped: l.skipped,
                        subdirs: if k == EntryKind::Directory {
                            l.subdirs.push(path@)
                        } else {
                            l.subdirs
                        },
                    },
                },
            }
        },
    }
}

pub open spec fn empty_listing() -> Listing {
    Listing { records: Seq::empty(), skipped: Seq::empty(), subdirs: Seq::empty() }
}

/// The listing of a directory with these entries, of which some are excluded.
pub open spec fn listing_of(
    style: PathStyle,
    dir: Seq<char>,
    entries: Seq<DirEntry>,
    excluded: Seq<bool>,
) -> Listing
    decreases entries.len(),
{
    if entries.len() == 0 {
        empty_listing()
    } else {
        let n = entries.len() - 1;
        with_entry(
            style,
            dir,
            listing_of(style, dir, entries.drop_last(), excluded),
            entries[n],
            excluded[n],
        )
    }
}

/// Turns the entries of a directory into a listing; `excluded` says which
/// entries are to be left out.
pub fn list_entries(
    style: PathStyle,
    dir: &str,
    entries: &Vec<DirEntry>,
    excluded: &Vec<bool>,
) -> (r: DirListing)
    requires
        entries@.len() == excluded@.len(),
    ensures
        r@ == listing_of(style, dir@, entries@, excluded@),
{
    let mut out: DirListing = DirListing {
        records: Vec::new(),
        skipped: Vec::new(),
        subdirs: Vec::new(),
    };
    let mut i: usize = 0;
    assert(out@ =~= listing_of(style, dir@, entries@.take(0), excluded@));
    while i < entries.len()
        invariant
            i <= entries@.len() == excluded@.len(),
            out@ == listing_of(style, dir@, entries@.take(i as int), excluded@),
        decreases entries@.len() - i,
    {
        let ghost before = out@;
        match &entries[i] {
            DirEntry::Unreadable { reason } => {
                out.skipped.push(SkippedPath { path: copy(dir), reason: reason.clone() });
                assert(out@ =~= with_skip(before, dir@, reason@));
            },
            DirEntry::Found { path, name, kind, meta } => {
                if !excluded[i] {
                    match kind {
                        Err(reason) => {
                            out.skipped.push(
                                SkippedPath { path: path.clone(), reason: reason.clone() },
                            );
                            assert(out@ =~= with_skip(before, path@, reason@));
                        },
                        Ok(EntryKind::Link) => {},
                        Ok(k) => {
                            match meta {
                                Err(reason) => {
                                    out.skipped.push(
                                        SkippedPath { path: path.clone(), reason: reason.clone() },
                                    );
                                    assert(out@ =~= with_skip(before, path@, reason@));
                                },
                                Ok(m) => {
                                    let is_dir: bool = *k == EntryKind::Directory;
                                    let ext: Option<String> = if is_dir {
                                        None
                                    } else {
                                        match extension_of(style, path.as_str()) {
                                            Some(e) => Some(to_lowercase(e.as_str())),
                                            None => None,
                                        }
                                    };
                                    let rec: FileRecord = FileRecord {
                                        id: 0,
                                        path: path.clone(),
                                        name: name.clone(),
                                        ext,
                                        size: if is_dir {
                                            0
                                        } else {
                                            m.len
                                        },
                                        created: m.created,
                                        modified: m.modified,
                                        accessed: m.accessed,
                                        is_dir,
                                        attributes: m.attributes,
                                    };
                                    assert(rec@ =~= entry_record(style, path@, name@, is_dir, *m));
                                    let ghost recs = out.records@;
                                    let ghost subs = out.subdirs@;
                                    out.records.push(rec);
                                    assert(records(out.records@) =~= records(recs).push(rec@));
                                    if is_dir {
                                        out.subdirs.push(path.clone());
                                        assert(views(out.subdirs@) =~= views(subs).push(path@));
                                    }
                                },
                            }
                        },
                    }
                }
            },
        }
        i += 1;
        assert(entries@.take(i as int).drop_last() =~= entries@.take(i - 1));
        assert(out@ =~= with_entry(
            style,
            dir@,
            before,
            entries@[i - 1],
            excluded@[i - 1],
        ));
    }
    assert(entries@.take(i as int) =~= entries@);
    out
}

/// Whether a path is excluded by a set of globs.
pub open spec fn path_excluded(style: PathStyle, globs: Seq<(Seq<char>, bool)>, path: Seq<char>) -> bool {
    any_matches(globs, slashed(style, path))
}

/// `excluded` says of each entry with a path whether a glob matches it, as far
/// as that does not depend on what a backslash means.
pub open spec fn exclusion_of(
    style: PathStyle,
    set: Option<globset::GlobSet>,
    entries: Seq<DirEntry>,
    excluded: Seq<bool>,
) -> bool {
    &&& excluded.len() == entries.len()
    &&& forall|i: int|
        0 <= i < entries.len() ==> exclusion_matches(style, set, #[trigger] entries[i], excluded[i])
}

/// Without a set nothing is excluded.
pub open spec fn exclusion_matches(
    style: PathStyle,
    set: Option<globset::GlobSet>,
    entry: DirEntry,
    excluded: bool,
) -> bool {
    match (entry, set) {
        (DirEntry::Found { path, .. }, None) => !excluded,
        (DirEntry::Found { path, .. }, Some(s)) => all_plain(set_globs(s)) && plain(
            slashed(style, path@),
        ) ==> excluded == path_excluded(style, set_globs(s), path@),
        _ => true,
    }
}

/// The listing of one directory, without recursion.
pub fn enumerate_dir(
    style: PathStyle,
    dir: &str,
    entries: &Vec<DirEntry>,
    excludes: &Option<globset::GlobSet>,
) -> (r: DirListing)
    ensures
        exists|excluded: Seq<bool>| #[trigger]
            exclusion_of(style, *excludes, entries@, excluded) && r@ == listing_of(
                style,
                dir@,
                entries@,
                excluded,
            ),
{
    let mut excluded: Vec<bool> = Vec::new();
    let mut i: usize = 0;
    while i < entries.len()
        invariant
            i <= entries@.len(),
            excluded@.len() == i,
            forall|k: int|
                0 <= k < i ==> exclusion_matches(
                    style,
                    *excludes,
                    #[trigger] entries@[k],
                    excluded@[k],
                ),
        decreases entries@.len() - i,
    {
        let hit: bool = match (&entries[i], excludes) {
            (DirEntry::Found { path, .. }, Some(set)) => is_match(style, set, path.as_str()),
            _ => false,
        };
        excluded.push(hit);
        i += 1;
    }
    assert(exclusion_of(style, *excludes, entries@, excluded@));
    list_entries(style, dir, entries, &excluded)
}

/// The listing of a directory that could not be read: one note and nothing
/// else.
pub fn unreadable_dir(dir: &str, reason: &str) -> (r: DirListing)
    ensures
        r@ == with_skip(empty_listing(), dir@, reason@),
{
    let mut skipped: Vec<SkippedPath> = Vec::new();
    skipped.push(SkippedPath { path: copy(dir), reason: copy(reason) });
    let out: DirListing = DirListing { records: Vec::new(), skipped, subdirs: Vec::new() };
    assert(out@ =~= with_skip(empty_listing(), dir@, reason@));
    out
}

/// `set` holds the exclude patterns; there is none where there are no patterns.
pub open spec fn exclude_set(patterns: Seq<String>, set: Option<globset::GlobSet>) -> bool {
    match set {
        None => patterns.len() == 0,
        Some(set) => {
            &&& patterns.len() > 0
            &&& set_globs(set) == globs_of(views(patterns), false)
            &&& crate::globs::accepted(views(patterns), patterns.len() as int)
        },
    }
}

/// The exclude set of a scan; no patterns, no set.
pub fn build_globset(patterns: &Vec<String>) -> (r: Result<Option<globset::GlobSet>, CoreError>)
    ensures
        match r {
            Ok(set) => exclude_set(patterns@, set),
            Err(e) => refused_patterns(views(patterns@), e),
        },
{
    if patterns.len() == 0 {
        return Ok(None);
    }
    match compile(patterns, false) {
        Ok(set) => Ok(Some(set)),
        Err(why) => {
            let ghost w = why;
            let e: CoreError = pattern_error(why, patterns, "");
            proof {
                match w {
                    crate::globs::Refused::Pattern { index, message } => {
                        reveal_strlit("");
                        assert(""@ + message@ =~= message@);
                        assert(views(patterns@)[index as int] == patterns@[index as int]@);
                    },
                    crate::globs::Refused::Together { message } => {},
                }
            }
            Err(e)
        },
    }
}

/// Only a root that exists can be scanned.
pub fn check_root(root: &str, exists: bool) -> (r: Result<(), CoreError>)
    ensures
        match r {
            Ok(_) => exists,
            Err(e) => !exists && (e matches CoreError::InvalidRoot(p) && p@ == root@),
        },
{
    if exists {
        Ok(())
    } else {
        Err(CoreError::InvalidRoot(copy(root)))
    }
}

/// The error names the first pattern that the grammar does not accept, or all
/// of them where each is accepted alone.
pub open spec fn refused_patterns(patterns: Seq<Seq<char>>, e: CoreError) -> bool {
    e matches CoreError::InvalidPattern { pattern, message } && {
        ||| exists|k: int|
            0 <= k < patterns.len() && pattern@ == #[trigger] patterns[k] && crate::globs::accepted(
                patterns,
                k,
            ) && (plain(patterns[k]) ==> crate::globs::glob_refusal(patterns[k]) == Some(
                message@,
            ))
        ||| patterns.len() > 0 && pattern@ == crate::globs::comma_list(patterns) && crate::globs::accepted(
            patterns,
            patterns.len() as int,
        )
    }
}

// ---------------------------------------------------------------- finalize --
/// Records are ordered by path.
pub open spec fn path_keys(v: Seq<Record>) -> Seq<(u64, Seq<char>)> {
    v.map_values(|r: Record| (0u64, r.path))
}

/// The same record under another id.
pub open spec fn numbered(r: Record, id: nat) -> Record {
    Record { id, ..r }
}

/// `out` holds the records of `input` in path order, numbered from 0.
pub open spec fn finalized(input: Seq<Record>, out: Seq<Record>) -> bool {
    exists|sorted: Seq<Record>| #[trigger]
        is_sorted_copy(input, path_keys(input), sorted) && out == Seq::new(
            sorted.len(),
            |i: int| numbered(sorted[i], i as nat),
        )
}

/// Deterministic order and sequential ids regardless of the order in which
/// directories were read.
pub fn finalize(outcome: ScanOutcome) -> (r: ScanOutcome)
    ensures
        finalized(records(outcome.records@), records(r.records@)),
        r.skipped@ == outcome.skipped@,
{
    let input: Vec<FileRecord> = outcome.records;
    let ghost all = records(input@);
    let mut keys: Vec<SortKey> = Vec::new();
    let mut i: usize = 0;
    while i < input.len()
        invariant
            i <= input@.len(),
            all == records(input@),
            keys@.len() == i,
            forall|k: int| 0 <= k < i ==> (#[trigger] keys@[k])@ == (0u64, all[k].path),
        decreases input@.len() - i,
    {
        keys.push(SortKey { rank: 0, name: chars_of(input[i].path.as_str()) });
        i += 1;
    }
    assert(key_views(keys@) =~= path_keys(all));
    let ghost raw = input@;
    let sorted: Vec<FileRecord> = sort_by_keys(input, &keys);
    let ghost sv = records(sorted@);
    assert(is_sorted_copy(all, path_keys(all), sv)) by {
        let p = choose|p: Seq<usize>|
            is_stable_order(key_views(keys@), p) && #[trigger] permuted(raw, p, sorted@);
        assert(permuted(all, p, sv));
    }
    let mut out: Vec<FileRecord> = Vec::new();
    let mut rest: Vec<FileRecord> = sorted;
    let ghost s0 = rest@;
    let n: usize = rest.len();
    // Taken off the end, so the list is built back to front and then turned.
    let mut back: Vec<FileRecord> = Vec::new();
    while rest.len() > 0
        invariant
            s0.len() == n,
            rest@ == s0.take(rest@.len() as int),
            rest@.len() + back@.len() == n,
            sv == records(s0),
            forall|k: int|
                0 <= k < back@.len() ==> (#[trigger] back@[k])@ == numbered(
                    sv[n - 1 - k],
                    (n - 1 - k) as nat,
                ),
        decreases rest@.len(),
    {
        let last: usize = rest.len() - 1;
        match rest.pop() {
            Some(mut r) => {
                r.id = last as u64;
                assert(r@ =~= numbered(sv[last as int], last as nat));
                back.push(r);
                assert(s0.take(last + 1).drop_last() =~= s0.take(last as int));
            },
            None => {},
        }
    }
    let ghost b0 = back@;
    while back.len() > 0
        invariant
            b0.len() == n,
            back@ == b0.take(back@.len() as int),
            back@.len() + out@.len() == n,
            forall|k: int|
                0 <= k < n ==> (#[trigger] b0[k])@ == numbered(sv[n - 1 - k], (n - 1 - k) as nat),
            forall|k: int|
                0 <= k < out@.len() ==> (#[trigger] out@[k])@ == numbered(sv[k], k as nat),
        decreases back@.len(),
    {
        let ghost m = back@.len() as int;
        match back.pop() {
            Some(r) => {
                assert(r == b0[m - 1]);
                assert(b0.take(m).drop_last() =~= b0.take(m - 1));
                out.push(r);
            },
            None => {},
        }
    }
    assert(records(out@) =~= Seq::new(sv.len(), |i: int| numbered(sv[i], i as nat)));
    ScanOutcome { records: out, skipped: outcome.skipped }
}

/// No two records have the same path.
pub open spec fn distinct_paths(v: Seq<Record>) -> bool {
    forall|i: int, j: int|
        0 <= i < j < v.len() ==> (#[trigger] v[i]).path != (#[trigger] v[j]).path
}

/// Strictly ascending by path.
spec fn ascending(v: Seq<Record>) -> bool {
    forall|i: int, j: int|
        0 <= i < j < v.len() ==> lex_lt((#[trigger] v[i]).path, (#[trigger] v[j]).path)
}

proof fn lemma_sorted_ascending(v: Seq<Record>, sorted: Seq<Record>)
    requires
        distinct_paths(v),
        is_sorted_copy(v, path_keys(v), sorted),
    ensures
        ascending(sorted),
        sorted.to_multiset() == v.to_multiset(),
{
    let keys = path_keys(v);
    let p = choose|p: Seq<usize>| is_stable_order(keys, p) && #[trigger] permuted(v, p, sorted);
    assert forall|i: int, j: int| 0 <= i < j < sorted.len() implies lex_lt(
        (#[trigger] sorted[i]).path,
        (#[trigger] sorted[j]).path,
    ) by {
        let a = p[i] as int;
        let b = p[j] as int;
        assert(crate::order::before(keys, a, b));
        lemma_key_total(keys[a], keys[b]);
        assert(sorted[i] == v[a] && sorted[j] == v[b]);
        if a < b {
            assert(v[a].path != v[b].path);
        } else {
            lemma_key_total(keys[a], keys[a]);
            if b < a {
                assert(v[b].path != v[a].path);
            }
        }
    }
    crate::order::lemma_permuted_multiset(v, keys, p, sorted);
}

proof fn lemma_ascending_agree(a: Seq<Record>, b: Seq<Record>, k: int)
    requires
        ascending(a),
        ascending(b),
        a.to_multiset() == b.to_multiset(),
        0 <= k <= a.len(),
        a.len() == b.len(),
    ensures
        a.take(k) == b.take(k),
    decreases k,
{
    broadcast use vstd::seq_lib::group_to_multiset_ensures;

    if k > 0 {
        lemma_ascending_agree(a, b, k - 1);
        let x = a[k - 1];
        let y = b[k - 1];
        assert(a.contains(x) && b.contains(y));
        assert(b.contains(x) && a.contains(y)) by {
            assert(a.to_multiset().count(x) > 0);
            assert(b.to_multiset().count(y) > 0);
        }
        let m = choose|i: int| 0 <= i < b.len() && b[i] == x;
        let l = choose|i: int| 0 <= i < a.len() && a[i] == y;
        crate::text::lemma_lex_total(x.path, y.path);
        crate::text::lemma_lex_total(x.path, x.path);
        crate::text::lemma_lex_total(y.path, y.path);
        if m < k - 1 {
            assert(a.take(k - 1)[m] == b.take(k - 1)[m]);
            assert(lex_lt(a[m].path, a[k - 1].path));
        }
        if l < k - 1 {
            assert(a.take(k - 1)[l] == b.take(k - 1)[l]);
            assert(lex_lt(b[l].path, b[k - 1].path));
        }
        if m > k - 1 && l > k - 1 {
            assert(lex_lt(b[k - 1].path, b[m].path));
            assert(lex_lt(a[k - 1].path, a[l].path));
        }
        assert(x == y);
        assert(a.take(k) =~= a.take(k - 1).push(x));
        assert(b.take(k) =~= b.take(k - 1).push(y));
    } else {
        assert(a.take(k) =~= b.take(k));
    }
}

/// The result of a scan does not depend on the order in which its records were
/// found, as long as no path was found twice.
pub proof fn law_finalize_ignores_order(
    a: Seq<Record>,
    b: Seq<Record>,
    x: Seq<Record>,
    y: Seq<Record>,
)
    requires
        a.to_multiset() == b.to_multiset(),
        distinct_paths(a),
        distinct_paths(b),
        finalized(a, x),
        finalized(b, y),
    ensures
        x == y,
{
    broadcast use vstd::seq_lib::group_to_multiset_ensures;

    let s = choose|s: Seq<Record>| #[trigger]
        is_sorted_copy(a, path_keys(a), s) && x == Seq::new(
            s.len(),
            |i: int| numbered(s[i], i as nat),
        );
    let t = choose|t: Seq<Record>| #[trigger]
        is_sorted_copy(b, path_keys(b), t) && y == Seq::new(
            t.len(),
            |i: int| numbered(t[i], i as nat),
        );
    lemma_sorted_ascending(a, s);
    lemma_sorted_ascending(b, t);
    assert(s.len() == t.len()) by {
        assert(s.to_multiset().len() == s.len());
        assert(t.to_multiset().len() == t.len());
    }
    lemma_ascending_agree(s, t, s.len() as int);
    assert(s.take(s.len() as int) =~= s);
    assert(t.take(t.len() as int) =~= t);
    assert(x =~= y);
}

// -------------------------------------------------------------------- walk --
/// The views of a list of listings.
pub open spec fn listings(v: Seq<DirListing>) -> Seq<Listing> {
    v.map_values(|l: DirListing| l@)
}

pub open spec fn all_records(v: Seq<Listing>) -> Seq<Record>
    decreases v.len(),
{
    if v.len() == 0 {
        Seq::empty()
    } else {
        all_records(v.drop_last()) + v.last().records
    }
}

pub open spec fn all_skipped(v: Seq<Listing>) -> Seq<Skipped>
    decreases v.len(),
{
    if v.len() == 0 {
        Seq::empty()
    } else {
        all_skipped(v.drop_last()) + v.last().skipped
    }
}

pub open spec fn all_subdirs(v: Seq<Listing>) -> Seq<Seq<char>>
    decreases v.len(),
{
    if v.len() == 0 {
        Seq::empty()
    } else {
        all_subdirs(v.drop_last()) + v.last().subdirs
    }
}

/// What the directories `todo` and everything below them hold, level by level,
/// where `tree` gives the listing of each directory; `None` where the tree is
/// more than `depth` levels deep.
pub open spec fn scan_tree(
    tree: spec_fn(Seq<char>) -> Listing,
    todo: Seq<Seq<char>>,
    depth: nat,
) -> Option<(Seq<Record>, Seq<Skipped>)>
    decreases depth,
{
    if todo.len() == 0 {
        Some((Seq::empty(), Seq::empty()))
    } else if depth == 0 {
        None
    } else {
        let ls = todo.map_values(tree);
        match scan_tree(tree, all_subdirs(ls), (depth - 1) as nat) {
            None => None,
            Some((r, s)) => Some((all_records(ls) + r, all_skipped(ls) + s)),
        }
    }
}

/// A scan under way: the directories still to read, and what was found.
pub struct Walk {
    pub todo: Vec<String>,
    pub outcome: ScanOutcome,
}

impl Walk {
    /// What the walk ends with, where `tree` gives the listing of each
    /// directory.
    pub open spec fn completion(
        &self,
        tree: spec_fn(Seq<char>) -> Listing,
        depth: nat,
    ) -> Option<(Seq<Record>, Seq<Skipped>)> {
        match scan_tree(tree, views(self.todo@), depth) {
            None => None,
            Some((r, s)) => Some(
                (records(self.outcome.records@) + r, skips(self.outcome.skipped@) + s),
            ),
        }
    }

    /// `after` is this walk with the listings of all its directories taken in.
    pub open spec fn advanced(&self, ls: Seq<Listing>, after: Walk) -> bool {
        &&& records(after.outcome.records@) == records(self.outcome.records@) + all_records(ls)
        &&& skips(after.outcome.skipped@) == skips(self.outcome.skipped@) + all_skipped(ls)
        &&& views(after.todo@) == all_subdirs(ls)
    }

    /// A walk that starts at `root`.
    pub fn new(root: &str) -> (r: Self)
        ensures
            views(r.todo@) == seq![root@],
            r.outcome.records@.len() == 0,
            r.outcome.skipped@.len() == 0,
    {
        let mut todo: Vec<String> = Vec::new();
        todo.push(copy(root));
        assert(views(todo@) =~= seq![root@]);
        Walk { todo, outcome: ScanOutcome { records: Vec::new(), skipped: Vec::new() } }
    }

    /// A scan of `root`, with the exclude set to hand to `enumerate_dir`. The
    /// root is looked at before the patterns.
    pub fn start(root: &str, exists: bool, opts: &ScanOptions) -> (r: Result<
        (Walk, Option<globset::GlobSet>),
        CoreError,
    >)
        ensures
            match r {
                Ok((walk, excludes)) => {
                    &&& exists
                    &&& views(walk.todo@) == seq![root@]
                    &&& walk.outcome.records@.len() == 0
                    &&& walk.outcome.skipped@.len() == 0
                    &&& exclude_set(opts.excludes@, excludes)
                },
                Err(e) => if exists {
                    refused_patterns(views(opts.excludes@), e)
                } else {
                    e matches CoreError::InvalidRoot(p) && p@ == root@
                },
            },
    {
        match check_root(root, exists) {
            Ok(_) => {},
            Err(e) => return Err(e),
        }
        match build_globset(&opts.excludes) {
            Ok(excludes) => Ok((Walk::new(root), excludes)),
            Err(e) => Err(e),
        }
    }

    /// Takes in the listings of the directories to read, in their order.
    pub fn feed(&mut self, read: Vec<DirListing>)
        requires
            read@.len() == old(self).todo@.len(),
        ensures
            old(self).advanced(listings(read@), *final(self)),
    {
        let ghost ls = listings(read@);
        let ghost r0 = records(self.outcome.records@);
        let ghost s0 = skips(self.outcome.skipped@);
        let mut todo: Vec<String> = Vec::new();
        let mut rest: Vec<DirListing> = read;
        // Popped from the end of a turned copy, so listings come in order.
        let mut turned: Vec<DirListing> = Vec::new();
        let ghost n = rest@.len();
        let ghost all = rest@;
        while rest.len() > 0
            invariant
                n == all.len(),
                rest@ == all.take(rest@.len() as int),
                rest@.len() + turned@.len() == n,
                forall|k: int| 0 <= k < turned@.len() ==> #[trigger] turned@[k] == all[n - 1 - k],
            decreases rest@.len(),
        {
            let ghost m = rest@.len() as int;
            match rest.pop() {
                Some(l) => {
                    assert(all.take(m).drop_last() =~= all.take(m - 1));
                    turned.push(l);
                },
                None => {},
            }
        }
        let ghost t0 = turned@;
        assert(ls.take(0) =~= Seq::empty());
        assert(r0 + all_records(ls.take(0)) =~= r0);
        assert(s0 + all_skipped(ls.take(0)) =~= s0);
        assert(views(todo@) =~= all_subdirs(ls.take(0)));
        while turned.len() > 0
            invariant
                n == all.len() == t0.len() == ls.len(),
                ls == listings(all),
                turned@.len() <= n,
                turned@ == t0.take(turned@.len() as int),
                forall|k: int| 0 <= k < n ==> #[trigger] t0[k] == all[n - 1 - k],
                records(self.outcome.records@) == r0 + all_records(ls.take(n - turned@.len())),
                skips(self.outcome.skipped@) == s0 + all_skipped(ls.take(n - turned@.len())),
                views(todo@) == all_subdirs(ls.take(n - turned@.len())),
            decreases turned@.len(),
        {
            let ghost m = turned@.len() as int;
            let ghost ro = self.outcome.records@;
            let ghost so = self.outcome.skipped@;
            let ghost to = todo@;
            match turned.pop() {
                Some(l) => {
                    let ghost lv = l@;
                    assert(l == all[n - m]);
                    assert(lv == ls[n - m]);
                    assert(t0.take(m).drop_last() =~= t0.take(m - 1));
                    let DirListing { records: mut lr, skipped: mut lk, subdirs: mut ld } = l;
                    let ghost (lr0, lk0, ld0) = (lr@, lk@, ld@);
                    self.outcome.records.append(&mut lr);
                    self.outcome.skipped.append(&mut lk);
                    todo.append(&mut ld);
                    proof {
                        let now = ls.take(n - m + 1);
                        assert(now.drop_last() =~= ls.take(n - m));
                        assert(now.last() == lv);
                        assert(records(self.outcome.records@) =~= records(ro) + lv.records);
                        assert(skips(self.outcome.skipped@) =~= skips(so) + lv.skipped);
                        assert(views(todo@) =~= views(to) + lv.subdirs);
                        assert(r0 + all_records(ls.take(n - m)) + lv.records =~= r0 + (all_records(
                            ls.take(n - m),
                        ) + lv.records));
                        assert(s0 + all_skipped(ls.take(n - m)) + lv.skipped =~= s0 + (all_skipped(
                            ls.take(n - m),
                        ) + lv.skipped));
                    }
                },
                None => {},
            }
        }
        assert(ls.take(n as int) =~= ls);
        self.todo = todo;
    }

    /// How many records were found so far.
    pub fn seen(&self) -> (r: u64)
        ensures
            r == self.outcome.records@.len(),
    {
        self.outcome.records.len() as u64
    }
}

/// Feeding a walk the listings of a tree brings it one level further: what it
/// ends with stays the same.
pub proof fn law_walk_follows_tree(
    tree: spec_fn(Seq<char>) -> Listing,
    before: Walk,
    after: Walk,
    depth: nat,
)
    requires
        before.todo@.len() > 0,
        before.advanced(views(before.todo@).map_values(tree), after),
    ensures
        after.completion(tree, depth) == before.completion(tree, depth + 1),
{
    let todo = views(before.todo@);
    let ls = todo.map_values(tree);
    match scan_tree(tree, all_subdirs(ls), depth) {
        None => {},
        Some((r, s)) => {
            let br = records(before.outcome.records@);
            let bs = skips(before.outcome.skipped@);
            assert(br + all_records(ls) + r =~= br + (all_records(ls) + r));
            assert(bs + all_skipped(ls) + s =~= bs + (all_skipped(ls) + s));
        },
    }
}

/// A walk was fed the listings of its directories, as `tree` gives them.
pub open spec fn walk_step(tree: spec_fn(Seq<char>) -> Listing, states: Seq<Walk>, i: int) -> bool {
    &&& states[i].todo@.len() > 0
    &&& states[i].advanced(views(states[i].todo@).map_values(tree), states[i + 1])
}

/// The states of a scan of `root` from its start to its end.
pub open spec fn is_walk(
    tree: spec_fn(Seq<char>) -> Listing,
    root: Seq<char>,
    states: Seq<Walk>,
) -> bool {
    &&& states.len() > 0
    &&& views(states[0].todo@) == seq![root]
    &&& states[0].outcome.records@.len() == 0
    &&& states[0].outcome.skipped@.len() == 0
    &&& forall|i: int| 0 <= i < states.len() - 1 ==> #[trigger] walk_step(tree, states, i)
    &&& states.last().todo@.len() == 0
}

proof fn lemma_walk_from(tree: spec_fn(Seq<char>) -> Listing, root: Seq<char>, states: Seq<Walk>, j: int)
    requires
        is_walk(tree, root, states),
        0 <= j < states.len(),
    ensures
        states[j].completion(tree, (states.len() - 1 - j) as nat) == Some(
            (records(states.last().outcome.records@), skips(states.last().outcome.skipped@)),
        ),
    decreases states.len() - j,
{
    let n = states.len() - 1;
    if j == n {
        let r = records(states[j].outcome.records@);
        let s = skips(states[j].outcome.skipped@);
        assert(views(states[j].todo@).len() == 0);
        assert(r + Seq::empty() =~= r);
        assert(s + Seq::empty() =~= s);
    } else {
        lemma_walk_from(tree, root, states, j + 1);
        assert(walk_step(tree, states, j));
        law_walk_follows_tree(tree, states[j], states[j + 1], (n - j - 1) as nat);
    }
}

/// A scan that runs to its end finds what the tree holds from its root on.
pub proof fn law_walk_scans_the_tree(
    tree: spec_fn(Seq<char>) -> Listing,
    root: Seq<char>,
    states: Seq<Walk>,
)
    requires
        is_walk(tree, root, states),
    ensures
        scan_tree(tree, seq![root], (states.len() - 1) as nat) == Some(
            (records(states.last().outcome.records@), skips(states.last().outcome.skipped@)),
        ),
{
    lemma_walk_from(tree, root, states, 0);
    match scan_tree(tree, seq![root], (states.len() - 1) as nat) {
        Some((r, s)) => {
            assert(records(states[0].outcome.records@) + r =~= r);
            assert(skips(states[0].outcome.skipped@) + s =~= s);
        },
        None => {},
    }
}

} // verus!
