//! What a listing says of the entries it was made from, entry by entry and field
//! by field, and what a finished scan keeps of its records.
use crate::globs::{glob_matches, globs_of, law_a_set_matches_if_one_pattern_does, plain, slashed};
use crate::lists::sum;
use crate::order::{is_sorted_copy, law_sorted_copy_is_ascending};
use crate::paths::PathStyle;
use crate::scanner::{
    all_records, all_skipped, all_subdirs, exclude_set, exclusion_matches, exclusion_of, finalized,
    is_walk, listing_of, numbered, path_keys, walk_step, DirEntry, EntryKind, EntryMeta, Listing,
    Walk,
};
use crate::text::{lex_lt, views};
use crate::types::{records, skips, Record, Skipped};
use vstd::prelude::*;

verus! {

/// The record shows the entry: its path and name, and everything that the file
/// system said of it.
pub open spec fn shows(r: Record, path: Seq<char>, name: Seq<char>, m: EntryMeta) -> bool {
    &&& r.path == path
    &&& r.name == name
    &&& r.created == m.created
    &&& r.modified == m.modified
    &&& r.accessed == m.accessed
    &&& r.attributes == m.attributes
}

/// Every file that is found, not excluded and readable is listed: with its path
/// and name, its length as the size, whatever the length, and the times and
/// attributes that the file system gave.
pub proof fn law_every_file_is_listed(
    style: PathStyle,
    dir: Seq<char>,
    entries: Seq<DirEntry>,
    excluded: Seq<bool>,
    i: int,
    path: String,
    name: String,
    m: EntryMeta,
)
    requires
        0 <= i < entries.len(),
        entries[i] == (DirEntry::Found { path, name, kind: Ok(EntryKind::File), meta: Ok(m) }),
        !excluded[i],
    ensures
        exists|k: int| {
            &&& 0 <= k < listing_of(style, dir, entries, excluded).records.len()
            &&& shows(
                #[trigger] listing_of(style, dir, entries, excluded).records[k],
                path@,
                name@,
                m,
            )
            &&& listing_of(style, dir, entries, excluded).records[k].size == m.len
            &&& !listing_of(style, dir, entries, excluded).records[k].is_dir
        },
    decreases entries.len(),
{
    let l = listing_of(style, dir, entries, excluded);
    let before = listing_of(style, dir, entries.drop_last(), excluded);
    if i < entries.len() - 1 {
        law_every_file_is_listed(style, dir, entries.drop_last(), excluded, i, path, name, m);
        let k = choose|k: int|
            0 <= k < before.records.len() && shows(#[trigger] before.records[k], path@, name@, m)
                && before.records[k].size == m.len && !before.records[k].is_dir;
        assert(l.records[k] == before.records[k]);
    } else {
        assert(shows(l.records[before.records.len() as int], path@, name@, m));
    }
}

/// Every directory that is found, not excluded and readable is listed as one,
/// without a size and without an extension, and is to be read next.
pub proof fn law_every_directory_is_listed(
    style: PathStyle,
    dir: Seq<char>,
    entries: Seq<DirEntry>,
    excluded: Seq<bool>,
    i: int,
    path: String,
    name: String,
    m: EntryMeta,
)
    requires
        0 <= i < entries.len(),
        entries[i] == (DirEntry::Found { path, name, kind: Ok(EntryKind::Directory), meta: Ok(m) }),
        !excluded[i],
    ensures
        exists|k: int| {
            &&& 0 <= k < listing_of(style, dir, entries, excluded).records.len()
            &&& shows(
                #[trigger] listing_of(style, dir, entries, excluded).records[k],
                path@,
                name@,
                m,
            )
            &&& listing_of(style, dir, entries, excluded).records[k].size == 0
            &&& listing_of(style, dir, entries, excluded).records[k].is_dir
            &&& listing_of(style, dir, entries, excluded).records[k].ext is None
        },
        listing_of(style, dir, entries, excluded).subdirs.contains(path@),
    decreases entries.len(),
{
    let l = listing_of(style, dir, entries, excluded);
    let before = listing_of(style, dir, entries.drop_last(), excluded);
    if i < entries.len() - 1 {
        law_every_directory_is_listed(style, dir, entries.drop_last(), excluded, i, path, name, m);
        let k = choose|k: int|
            0 <= k < before.records.len() && shows(#[trigger] before.records[k], path@, name@, m)
                && before.records[k].size == 0 && before.records[k].is_dir
                && before.records[k].ext is None;
        assert(l.records[k] == before.records[k]);
        let d = choose|d: int| 0 <= d < before.subdirs.len() && before.subdirs[d] == path@;
        assert(l.subdirs[d] == path@);
    } else {
        assert(shows(l.records[before.records.len() as int], path@, name@, m));
        assert(l.subdirs[before.subdirs.len() as int] == path@);
    }
}

/// What could not be read is noted with its reason: an entry whose kind or whose
/// metadata is missing under its own path, an entry without a path under the
/// directory.
pub proof fn law_every_failure_is_noted(
    style: PathStyle,
    dir: Seq<char>,
    entries: Seq<DirEntry>,
    excluded: Seq<bool>,
    i: int,
)
    requires
        0 <= i < entries.len(),
    ensures
        match entries[i] {
            DirEntry::Unreadable { reason } => listing_of(
                style,
                dir,
                entries,
                excluded,
            ).skipped.contains(Skipped { path: dir, reason: reason@ }),
            DirEntry::Found { path, kind: Err(reason), .. } => !excluded[i] ==> listing_of(
                style,
                dir,
                entries,
                excluded,
            ).skipped.contains(Skipped { path: path@, reason: reason@ }),
            DirEntry::Found { path, kind: Ok(k), meta: Err(reason), .. } => !excluded[i] && k
                != EntryKind::Link ==> listing_of(style, dir, entries, excluded).skipped.contains(
                Skipped { path: path@, reason: reason@ },
            ),
            _ => true,
        },
    decreases entries.len(),
{
    let l = listing_of(style, dir, entries, excluded);
    let before = listing_of(style, dir, entries.drop_last(), excluded);
    if i < entries.len() - 1 {
        law_every_failure_is_noted(style, dir, entries.drop_last(), excluded, i);
        assert forall|s: Skipped| before.skipped.contains(s) implies #[trigger] l.skipped.contains(
            s,
        ) by {
            let k = choose|k: int| 0 <= k < before.skipped.len() && before.skipped[k] == s;
            assert(l.skipped[k] == s);
        }
    } else if l.skipped.len() > before.skipped.len() {
        assert(l.skipped[before.skipped.len() as int] == l.skipped.last());
    }
}

/// An entry that is to be listed: found, not excluded, neither a link nor
/// unreadable.
pub open spec fn is_listed(e: DirEntry, excluded: bool) -> bool {
    !excluded && (e matches DirEntry::Found { kind: Ok(k), meta: Ok(_), .. } && k
        != EntryKind::Link)
}

/// The record is the one of this entry.
pub open spec fn is_record_of(r: Record, e: DirEntry) -> bool {
    e matches DirEntry::Found { path, name, kind: Ok(kind), meta: Ok(m) } && shows(
        r,
        path@,
        name@,
        m,
    ) && r.is_dir == (kind == EntryKind::Directory)
}

/// The entry is the directory with this path.
pub open spec fn is_directory(e: DirEntry, path: Seq<char>) -> bool {
    e matches DirEntry::Found { path: p, kind: Ok(EntryKind::Directory), .. } && p@ == path
}

/// The record is the one of an entry that is to be listed.
pub open spec fn has_entry(r: Record, entries: Seq<DirEntry>, excluded: Seq<bool>) -> bool {
    exists|i: int|
        0 <= i < entries.len() && is_listed(entries[i], excluded[i]) && is_record_of(
            r,
            #[trigger] entries[i],
        )
}

/// The path is the one of a directory that is to be listed.
pub open spec fn is_listed_directory(
    path: Seq<char>,
    entries: Seq<DirEntry>,
    excluded: Seq<bool>,
) -> bool {
    exists|i: int|
        0 <= i < entries.len() && is_listed(entries[i], excluded[i]) && is_directory(
            #[trigger] entries[i],
            path,
        )
}

/// Nothing is made up: every record is the one of an entry that is to be listed,
/// and every directory to read next is such an entry too. So links and excluded
/// entries leave no record and are not followed.
pub proof fn law_nothing_else_is_listed(
    style: PathStyle,
    dir: Seq<char>,
    entries: Seq<DirEntry>,
    excluded: Seq<bool>,
)
    ensures
        forall|k: int|
            0 <= k < listing_of(style, dir, entries, excluded).records.len() ==> has_entry(
                #[trigger] listing_of(style, dir, entries, excluded).records[k],
                entries,
                excluded,
            ),
        forall|k: int|
            0 <= k < listing_of(style, dir, entries, excluded).subdirs.len()
                ==> is_listed_directory(
                #[trigger] listing_of(style, dir, entries, excluded).subdirs[k],
                entries,
                excluded,
            ),
    decreases entries.len(),
{
    let l = listing_of(style, dir, entries, excluded);
    if entries.len() > 0 {
        let front = entries.drop_last();
        let before = listing_of(style, dir, front, excluded);
        let n = entries.len() - 1;
        law_nothing_else_is_listed(style, dir, front, excluded);
        assert forall|k: int| 0 <= k < l.records.len() implies has_entry(
            #[trigger] l.records[k],
            entries,
            excluded,
        ) by {
            if k < before.records.len() {
                assert(has_entry(before.records[k], front, excluded));
                let i = choose|i: int|
                    0 <= i < front.len() && is_listed(front[i], excluded[i]) && is_record_of(
                        before.records[k],
                        #[trigger] front[i],
                    );
                assert(entries[i] == front[i]);
            } else {
                assert(is_record_of(l.records[k], entries[n]));
            }
        }
        assert forall|k: int| 0 <= k < l.subdirs.len() implies is_listed_directory(
            #[trigger] l.subdirs[k],
            entries,
            excluded,
        ) by {
            if k < before.subdirs.len() {
                assert(is_listed_directory(before.subdirs[k], front, excluded));
                let i = choose|i: int|
                    0 <= i < front.len() && is_listed(front[i], excluded[i]) && is_directory(
                        #[trigger] front[i],
                        before.subdirs[k],
                    );
                assert(entries[i] == front[i]);
            } else {
                assert(is_directory(entries[n], l.subdirs[k]));
            }
        }
    }
}

/// An entry that is to be noted: it could not be read itself, or it is not excluded
/// and its kind, or the metadata of what is no link, could not be read.
pub open spec fn is_noted(e: DirEntry, excluded: bool) -> bool {
    match e {
        DirEntry::Unreadable { .. } => true,
        DirEntry::Found { kind: Err(_), .. } => !excluded,
        DirEntry::Found { kind: Ok(k), meta: Err(_), .. } => !excluded && k != EntryKind::Link,
        _ => false,
    }
}

/// How many of the first `n` entries are to be noted.
pub open spec fn noted_count(entries: Seq<DirEntry>, excluded: Seq<bool>, n: int) -> nat
    decreases n,
{
    if n <= 0 {
        0
    } else {
        noted_count(entries, excluded, n - 1) + if is_noted(entries[n - 1], excluded[n - 1]) {
            1nat
        } else {
            0
        }
    }
}

/// There is one note for each entry that is to be noted, and no other: links and
/// excluded entries leave none.
pub proof fn law_one_note_for_each_failure(
    style: PathStyle,
    dir: Seq<char>,
    entries: Seq<DirEntry>,
    excluded: Seq<bool>,
)
    ensures
        listing_of(style, dir, entries, excluded).skipped.len() == noted_count(
            entries,
            excluded,
            entries.len() as int,
        ),
{
    lemma_notes_add_up(style, dir, entries, excluded, entries.len() as int);
    assert(entries.take(entries.len() as int) =~= entries);
}

proof fn lemma_notes_add_up(
    style: PathStyle,
    dir: Seq<char>,
    entries: Seq<DirEntry>,
    excluded: Seq<bool>,
    n: int,
)
    requires
        0 <= n <= entries.len(),
    ensures
        listing_of(style, dir, entries.take(n), excluded).skipped.len() == noted_count(
            entries,
            excluded,
            n,
        ),
    decreases n,
{
    if n > 0 {
        lemma_notes_add_up(style, dir, entries, excluded, n - 1);
        assert(entries.take(n).drop_last() =~= entries.take(n - 1));
        assert(entries.take(n)[n - 1] == entries[n - 1]);
    }
}

/// The length of a file that is to be listed; 0 for everything else.
pub open spec fn listed_length(e: DirEntry, excluded: bool) -> nat {
    match e {
        DirEntry::Found { kind: Ok(EntryKind::File), meta: Ok(m), .. } => if excluded {
            0
        } else {
            m.len as nat
        },
        _ => 0,
    }
}

/// The lengths of the first `n` entries, as far as they are to be listed.
pub open spec fn listed_lengths(entries: Seq<DirEntry>, excluded: Seq<bool>, n: int) -> nat
    decreases n,
{
    if n <= 0 {
        0
    } else {
        listed_lengths(entries, excluded, n - 1) + listed_length(entries[n - 1], excluded[n - 1])
    }
}

/// How many of the first `n` entries are to be listed.
pub open spec fn listed_count(entries: Seq<DirEntry>, excluded: Seq<bool>, n: int) -> nat
    decreases n,
{
    if n <= 0 {
        0
    } else {
        listed_count(entries, excluded, n - 1) + if is_listed(entries[n - 1], excluded[n - 1]) {
            1nat
        } else {
            0
        }
    }
}

/// The sizes of the records add up to the lengths of the files listed, and there
/// is one record for each entry that is to be listed.
pub proof fn law_sizes_add_up_to_the_lengths(
    style: PathStyle,
    dir: Seq<char>,
    entries: Seq<DirEntry>,
    excluded: Seq<bool>,
)
    ensures
        sum(listing_of(style, dir, entries, excluded).records, |r: Record| r.size as nat)
            == listed_lengths(entries, excluded, entries.len() as int),
        listing_of(style, dir, entries, excluded).records.len() == listed_count(
            entries,
            excluded,
            entries.len() as int,
        ),
{
    lemma_lengths_add_up(style, dir, entries, excluded, entries.len() as int);
    assert(entries.take(entries.len() as int) =~= entries);
}

proof fn lemma_lengths_add_up(
    style: PathStyle,
    dir: Seq<char>,
    entries: Seq<DirEntry>,
    excluded: Seq<bool>,
    n: int,
)
    requires
        0 <= n <= entries.len(),
    ensures
        sum(listing_of(style, dir, entries.take(n), excluded).records, |r: Record| r.size as nat)
            == listed_lengths(entries, excluded, n),
        listing_of(style, dir, entries.take(n), excluded).records.len() == listed_count(
            entries,
            excluded,
            n,
        ),
    decreases n,
{
    if n > 0 {
        let l = listing_of(style, dir, entries.take(n), excluded);
        let before = listing_of(style, dir, entries.take(n - 1), excluded);
        lemma_lengths_add_up(style, dir, entries, excluded, n - 1);
        assert(entries.take(n).drop_last() =~= entries.take(n - 1));
        assert(entries.take(n)[n - 1] == entries[n - 1]);
        if l.records.len() > before.records.len() {
            assert(l.records.drop_last() =~= before.records);
        }
    }
}

/// The same record, under any id.
pub open spec fn same_but_id(a: Record, b: Record) -> bool {
    &&& a.path == b.path
    &&& a.name == b.name
    &&& a.ext == b.ext
    &&& a.size == b.size
    &&& a.created == b.created
    &&& a.modified == b.modified
    &&& a.accessed == b.accessed
    &&& a.is_dir == b.is_dir
    &&& a.attributes == b.attributes
}

/// One of the records is this one, under any id.
pub open spec fn holds_record(v: Seq<Record>, r: Record) -> bool {
    exists|k: int| 0 <= k < v.len() && same_but_id(#[trigger] v[k], r)
}

/// A finished scan numbers its records from 0 in ascending order of their paths,
/// and changes nothing else: it holds the records that were found, each with its
/// fields, and no others.
pub proof fn law_finished_records_are_the_found_ones(found: Seq<Record>, out: Seq<Record>)
    requires
        finalized(found, out),
    ensures
        out.len() == found.len(),
        forall|i: int| 0 <= i < out.len() ==> (#[trigger] out[i]).id == i,
        forall|i: int, j: int|
            0 <= i < j < out.len() ==> !lex_lt((#[trigger] out[j]).path, (#[trigger] out[i]).path),
        forall|i: int|
            0 <= i < out.len() ==> holds_record(found, #[trigger] out[i]),
        forall|k: int|
            0 <= k < found.len() ==> holds_record(out, #[trigger] found[k]),
{
    let sorted = choose|sorted: Seq<Record>| #[trigger]
        is_sorted_copy(found, path_keys(found), sorted) && out == Seq::new(
            sorted.len(),
            |i: int| numbered(sorted[i], i as nat),
        );
    law_sorted_copy_is_ascending(found, |r: Record| (0u64, r.path), path_keys(found), sorted);
    assert forall|i: int, j: int| 0 <= i < j < out.len() implies !lex_lt(
        (#[trigger] out[j]).path,
        (#[trigger] out[i]).path,
    ) by {
        assert(out[i].path == sorted[i].path && out[j].path == sorted[j].path);
    }
    assert forall|i: int| 0 <= i < out.len() implies holds_record(found, #[trigger] out[i]) by {
        assert(sorted.contains(sorted[i]));
        let k = choose|k: int| 0 <= k < found.len() && found[k] == sorted[i];
        assert(same_but_id(found[k], out[i]));
    }
    assert forall|k: int| 0 <= k < found.len() implies holds_record(out, #[trigger] found[k]) by {
        assert(found.contains(found[k]));
        assert(sorted.contains(found[k]));
        let i = choose|i: int| 0 <= i < sorted.len() && sorted[i] == found[k];
        assert(same_but_id(out[i], found[k]));
    }
}

// -------------------------------------------------------------------- walks --
proof fn lemma_all_records(ls: Seq<Listing>, r: Record)
    ensures
        all_records(ls).contains(r) <==> exists|i: int|
            0 <= i < ls.len() && (#[trigger] ls[i]).records.contains(r),
    decreases ls.len(),
{
    if ls.len() > 0 {
        let front = ls.drop_last();
        let a = all_records(front);
        let b = ls.last().records;
        lemma_all_records(front, r);
        lemma_joined_holds(a, b, r);
        lemma_last_or_before(ls, |l: Listing| l.records.contains(r));
    }
}

proof fn lemma_all_skipped(ls: Seq<Listing>, k: Skipped)
    ensures
        all_skipped(ls).contains(k) <==> exists|i: int|
            0 <= i < ls.len() && (#[trigger] ls[i]).skipped.contains(k),
    decreases ls.len(),
{
    if ls.len() > 0 {
        let front = ls.drop_last();
        let a = all_skipped(front);
        let b = ls.last().skipped;
        lemma_all_skipped(front, k);
        lemma_joined_holds(a, b, k);
        lemma_last_or_before(ls, |l: Listing| l.skipped.contains(k));
    }
}

proof fn lemma_all_subdirs(ls: Seq<Listing>, d: Seq<char>)
    ensures
        all_subdirs(ls).contains(d) <==> exists|i: int|
            0 <= i < ls.len() && (#[trigger] ls[i]).subdirs.contains(d),
    decreases ls.len(),
{
    if ls.len() > 0 {
        let front = ls.drop_last();
        let a = all_subdirs(front);
        let b = ls.last().subdirs;
        lemma_all_subdirs(front, d);
        lemma_joined_holds(a, b, d);
        lemma_last_or_before(ls, |l: Listing| l.subdirs.contains(d));
    }
}

proof fn lemma_joined_holds<T>(a: Seq<T>, b: Seq<T>, x: T)
    ensures
        (a + b).contains(x) <==> a.contains(x) || b.contains(x),
{
    let c = a + b;
    if a.contains(x) {
        let i = choose|i: int| 0 <= i < a.len() && a[i] == x;
        assert(c[i] == x);
    }
    if b.contains(x) {
        let i = choose|i: int| 0 <= i < b.len() && b[i] == x;
        assert(c[a.len() + i] == x);
    }
    if c.contains(x) {
        let i = choose|i: int| 0 <= i < c.len() && c[i] == x;
        if i < a.len() {
            assert(a[i] == x);
        } else {
            assert(b[i - a.len()] == x);
        }
    }
}

proof fn lemma_last_or_before(ls: Seq<Listing>, p: spec_fn(Listing) -> bool)
    requires
        ls.len() > 0,
    ensures
        (exists|i: int| 0 <= i < ls.len() && p(#[trigger] ls[i])) <==> p(ls.last()) || (exists|
            i: int,
        |
            0 <= i < ls.drop_last().len() && p(#[trigger] ls.drop_last()[i])),
{
    let front = ls.drop_last();
    if exists|i: int| 0 <= i < ls.len() && p(#[trigger] ls[i]) {
        let i = choose|i: int| 0 <= i < ls.len() && p(#[trigger] ls[i]);
        if i < front.len() {
            assert(front[i] == ls[i]);
        }
    }
    if exists|i: int| 0 <= i < front.len() && p(#[trigger] front[i]) {
        let i = choose|i: int| 0 <= i < front.len() && p(#[trigger] front[i]);
        assert(ls[i] == front[i]);
    }
    assert(ls[ls.len() - 1] == ls.last());
}

/// The directory is reached from the root in `n` steps, each into a subdirectory
/// that a listing shows.
pub open spec fn reached(
    tree: spec_fn(Seq<char>) -> Listing,
    root: Seq<char>,
    d: Seq<char>,
    n: nat,
) -> bool
    decreases n,
{
    if n == 0 {
        d == root
    } else {
        exists|p: Seq<char>|
            reached(tree, root, p, (n - 1) as nat) && (#[trigger] tree(p)).subdirs.contains(d)
    }
}

proof fn lemma_level(
    tree: spec_fn(Seq<char>) -> Listing,
    root: Seq<char>,
    states: Seq<Walk>,
    k: int,
)
    requires
        is_walk(tree, root, states),
        0 <= k < states.len(),
    ensures
        forall|d: Seq<char>| #[trigger]
            views(states[k].todo@).contains(d) <==> reached(tree, root, d, k as nat),
    decreases k,
{
    let todo = views(states[k].todo@);
    if k == 0 {
        assert(todo[0] == root);
        assert forall|d: Seq<char>| #[trigger] todo.contains(d) <==> reached(
            tree,
            root,
            d,
            0,
        ) by {}
    } else {
        lemma_level(tree, root, states, k - 1);
        let up = views(states[k - 1].todo@);
        let ls = up.map_values(tree);
        assert(walk_step(tree, states, k - 1));
        assert forall|d: Seq<char>| #[trigger] todo.contains(d) <==> reached(
            tree,
            root,
            d,
            k as nat,
        ) by {
            lemma_all_subdirs(ls, d);
            if todo.contains(d) {
                let i = choose|i: int| 0 <= i < ls.len() && (#[trigger] ls[i]).subdirs.contains(d);
                assert(up.contains(up[i]));
                assert(reached(tree, root, up[i], (k - 1) as nat));
            }
            if reached(tree, root, d, k as nat) {
                let p = choose|p: Seq<char>|
                    reached(tree, root, p, (k - 1) as nat) && (#[trigger] tree(p)).subdirs.contains(d);
                assert(up.contains(p));
                let i = choose|i: int| 0 <= i < up.len() && up[i] == p;
                assert(ls[i].subdirs.contains(d));
            }
        }
    }
}

/// A directory that is reached is reached before the walk ends.
proof fn lemma_reached_in_time(
    tree: spec_fn(Seq<char>) -> Listing,
    root: Seq<char>,
    states: Seq<Walk>,
    d: Seq<char>,
    n: nat,
)
    requires
        is_walk(tree, root, states),
        reached(tree, root, d, n),
    ensures
        n + 1 < states.len(),
    decreases n,
{
    if n > 0 {
        let p = choose|p: Seq<char>|
            reached(tree, root, p, (n - 1) as nat) && (#[trigger] tree(p)).subdirs.contains(d);
        lemma_reached_in_time(tree, root, states, p, (n - 1) as nat);
    }
    lemma_level(tree, root, states, n as int);
    assert(views(states[n as int].todo@).contains(d));
    if n + 1 == states.len() {
        assert(states.last().todo@.len() == 0);
        assert(views(states.last().todo@).len() == 0);
    }
}

proof fn lemma_found_stays(
    tree: spec_fn(Seq<char>) -> Listing,
    root: Seq<char>,
    states: Seq<Walk>,
    k: int,
    r: Record,
    s: Skipped,
)
    requires
        is_walk(tree, root, states),
        0 <= k < states.len(),
    ensures
        records(states[k].outcome.records@).contains(r) ==> records(
            states.last().outcome.records@,
        ).contains(r),
        skips(states[k].outcome.skipped@).contains(s) ==> skips(
            states.last().outcome.skipped@,
        ).contains(s),
    decreases states.len() - k,
{
    if k < states.len() - 1 {
        assert(walk_step(tree, states, k));
        let ls = views(states[k].todo@).map_values(tree);
        lemma_joined_holds(records(states[k].outcome.records@), all_records(ls), r);
        lemma_joined_holds(skips(states[k].outcome.skipped@), all_skipped(ls), s);
        lemma_found_stays(tree, root, states, k + 1, r, s);
    }
}

/// A scan finds everything that can be reached from its root: the records and the
/// notes of every directory there, however deep.
pub proof fn law_walk_misses_nothing(
    tree: spec_fn(Seq<char>) -> Listing,
    root: Seq<char>,
    states: Seq<Walk>,
    d: Seq<char>,
    n: nat,
    r: Record,
    s: Skipped,
)
    requires
        is_walk(tree, root, states),
        reached(tree, root, d, n),
    ensures
        tree(d).records.contains(r) ==> records(states.last().outcome.records@).contains(r),
        tree(d).skipped.contains(s) ==> skips(states.last().outcome.skipped@).contains(s),
{
    let k = n as int;
    lemma_reached_in_time(tree, root, states, d, n);
    lemma_level(tree, root, states, k);
    let todo = views(states[k].todo@);
    let ls = todo.map_values(tree);
    assert(todo.contains(d));
    let i = choose|i: int| 0 <= i < todo.len() && todo[i] == d;
    assert(ls[i] == tree(d));
    assert(walk_step(tree, states, k));
    lemma_all_records(ls, r);
    lemma_all_skipped(ls, s);
    lemma_joined_holds(records(states[k].outcome.records@), all_records(ls), r);
    lemma_joined_holds(skips(states[k].outcome.skipped@), all_skipped(ls), s);
    lemma_found_stays(tree, root, states, k + 1, r, s);
}

/// One of the directories that can be reached shows this record.
pub open spec fn is_there(tree: spec_fn(Seq<char>) -> Listing, root: Seq<char>, r: Record) -> bool {
    exists|d: Seq<char>, n: nat| #[trigger]
        reached(tree, root, d, n) && tree(d).records.contains(r)
}

/// A scan makes nothing up: every record comes from a directory that can be
/// reached from the root.
pub proof fn law_walk_makes_nothing_up(
    tree: spec_fn(Seq<char>) -> Listing,
    root: Seq<char>,
    states: Seq<Walk>,
    r: Record,
)
    requires
        is_walk(tree, root, states),
        records(states.last().outcome.records@).contains(r),
    ensures
        is_there(tree, root, r),
{
    lemma_from_a_directory(tree, root, states, states.len() - 1, r);
}

proof fn lemma_from_a_directory(
    tree: spec_fn(Seq<char>) -> Listing,
    root: Seq<char>,
    states: Seq<Walk>,
    k: int,
    r: Record,
)
    requires
        is_walk(tree, root, states),
        0 <= k < states.len(),
        records(states[k].outcome.records@).contains(r),
    ensures
        is_there(tree, root, r),
    decreases k,
{
    if k == 0 {
        assert(records(states[0].outcome.records@).len() == 0);
    } else {
        assert(walk_step(tree, states, k - 1));
        let todo = views(states[k - 1].todo@);
        let ls = todo.map_values(tree);
        lemma_joined_holds(records(states[k - 1].outcome.records@), all_records(ls), r);
        if records(states[k - 1].outcome.records@).contains(r) {
            lemma_from_a_directory(tree, root, states, k - 1, r);
        } else {
            lemma_all_records(ls, r);
            let i = choose|i: int| 0 <= i < ls.len() && (#[trigger] ls[i]).records.contains(r);
            lemma_level(tree, root, states, k - 1);
            assert(todo.contains(todo[i]));
            assert(reached(tree, root, todo[i], (k - 1) as nat));
        }
    }
}

// ----------------------------------------------------------------- excludes --
/// An entry is excluded exactly if one of the patterns matches its path; without
/// patterns nothing is. (What a backslash means in a pattern, or in a path that
/// still has one, is left open.)
pub proof fn law_excluded_entries_match_a_pattern(
    style: PathStyle,
    patterns: Seq<String>,
    set: Option<globset::GlobSet>,
    entries: Seq<DirEntry>,
    excluded: Seq<bool>,
    i: int,
)
    requires
        exclude_set(patterns, set),
        exclusion_of(style, set, entries, excluded),
        0 <= i < entries.len(),
        forall|k: int| 0 <= k < patterns.len() ==> !(#[trigger] patterns[k])@.contains('\\'),
    ensures
        entries[i] matches DirEntry::Found { path, .. } ==> !slashed(style, path@).contains('\\')
            ==> (excluded[i] <==> exists|k: int|
            0 <= k < patterns.len() && glob_matches(
                (#[trigger] patterns[k])@,
                false,
                slashed(style, path@),
            )),
        patterns.len() == 0 ==> (entries[i] is Found ==> !excluded[i]),
{
    assert(exclusion_matches(style, set, entries[i], excluded[i]));
    match (entries[i], set) {
        (DirEntry::Found { path, .. }, Some(s)) => {
            let p = slashed(style, path@);
            let texts = views(patterns);
            let globs = globs_of(texts, false);
            assert forall|k: int| 0 <= k < globs.len() implies plain((#[trigger] globs[k]).0) by {
                assert(globs[k].0 == patterns[k]@);
            }
            law_a_set_matches_if_one_pattern_does(texts, false, p);
            if exists|k: int| 0 <= k < texts.len() && glob_matches(#[trigger] texts[k], false, p) {
                let k = choose|k: int|
                    0 <= k < texts.len() && glob_matches(#[trigger] texts[k], false, p);
                assert(glob_matches(patterns[k]@, false, p));
            }
            if exists|k: int|
                0 <= k < patterns.len() && glob_matches((#[trigger] patterns[k])@, false, p) {
                let k = choose|k: int|
                    0 <= k < patterns.len() && glob_matches((#[trigger] patterns[k])@, false, p);
                assert(texts[k] == patterns[k]@);
            }
        },
        _ => {},
    }
}

} // verus!
