//! A snapshot is served as it was taken where nothing is marked as changed.
use crate::lists::lemma_filter_member;
use crate::merge::{
    cached_listing, child_of, dir_key, is_dir_record, is_live, known, live_dirs, lower_parent,
    merged_tree, record_paths,
};
use crate::merge_laws::{
    all_known, bag, closed_under, essence, essences, law_entries_are_found_by_their_directory,
    law_rescan_walks_merged_tree,
    law_scan_sees_contents_only, law_without_marks_nothing_is_read, lemma_bag_permuted,
    lemma_distinct_transfers, lemma_finalized_cores, same_contents,
    without_access_time,
};
use crate::order::{is_sorted_copy, lemma_sorted_copy_items};
use crate::paths::{entry_path, is_entry_name, prefix_is_complete, PathStyle};
use crate::scanner::{
    all_records, all_subdirs, distinct_paths, finalized, law_finalize_ignores_order, listing_of,
    numbered, path_keys, scan_tree, DirEntry, Listing,
};
use crate::types::{Record, Skipped};
use vstd::multiset::Multiset;
use vstd::prelude::*;

verus! {

/// The directories a scan of `todo` reads, in order.
pub open spec fn reached(
    tree: spec_fn(Seq<char>) -> Listing,
    todo: Seq<Seq<char>>,
    depth: nat,
) -> Seq<Seq<char>>
    decreases depth,
{
    if todo.len() == 0 || depth == 0 {
        Seq::empty()
    } else {
        todo + reached(tree, all_subdirs(todo.map_values(tree)), (depth - 1) as nat)
    }
}

/// A listing shows the entries of its own directory, and its subdirectories are
/// the directories among them.
pub open spec fn shows(style: PathStyle, tree: spec_fn(Seq<char>) -> Listing, d: Seq<char>) -> bool {
    &&& forall|i: int|
        0 <= i < tree(d).records.len() ==> lower_parent(
            style,
            (#[trigger] tree(d).records[i]).path,
        ) == Some(dir_key(style, d))
    &&& tree(d).subdirs == record_paths(tree(d).records.filter(is_dir_record()))
}

/// A tree that can be told from its snapshot: every listing shows its own
/// directory, and no two directories differ in case alone.
pub open spec fn plain_tree(
    style: PathStyle,
    tree: spec_fn(Seq<char>) -> Listing,
    dirs: Seq<Seq<char>>,
) -> bool {
    &&& forall|i: int| 0 <= i < dirs.len() ==> shows(style, tree, #[trigger] dirs[i])
    &&& forall|i: int, j: int|
        0 <= i < j < dirs.len() ==> dir_key(style, #[trigger] dirs[i]) != dir_key(
            style,
            #[trigger] dirs[j],
        )
}

/// An entry whose path is that of its directory with its name behind it.
pub open spec fn is_entry_of(style: PathStyle, dir: Seq<char>, e: DirEntry) -> bool {
    e matches DirEntry::Found { path, name, .. } ==> {
        &&& path@ == entry_path(style, dir, name@)
        &&& is_entry_name(style, dir, name@)
        &&& prefix_is_complete(style, dir, name@)
    }
}

/// The listing of a directory shows its own entries, however the directory is
/// spelled.
pub proof fn law_listing_shows_its_directory(
    style: PathStyle,
    tree: spec_fn(Seq<char>) -> Listing,
    dir: Seq<char>,
    entries: Seq<DirEntry>,
    excluded: Seq<bool>,
)
    requires
        tree(dir) == listing_of(style, dir, entries, excluded),
        forall|i: int| 0 <= i < entries.len() ==> is_entry_of(style, dir, #[trigger] entries[i]),
    ensures
        shows(style, tree, dir),
    decreases entries.len(),
{
    reveal(Seq::filter);
    let l = tree(dir);
    let q = is_dir_record();
    if entries.len() == 0 {
        assert(l.subdirs =~= record_paths(l.records.filter(q)));
    } else {
        let n = entries.len() - 1;
        let short = entries.drop_last();
        let before = listing_of(style, dir, short, excluded);
        let t = |d: Seq<char>| before;
        assert forall|i: int| 0 <= i < short.len() implies is_entry_of(
            style,
            dir,
            #[trigger] short[i],
        ) by {
            assert(short[i] == entries[i]);
        }
        law_listing_shows_its_directory(style, t, dir, short, excluded);
        assert(t(dir) == before);
        assert(is_entry_of(style, dir, entries[n]));
        match entries[n] {
            DirEntry::Found { path, name, kind, meta } => {
                law_entries_are_found_by_their_directory(style, dir, name@);
                if l.records.len() > before.records.len() {
                    assert(l.records.drop_last() =~= before.records);
                    assert(l.records.last().path == path@);
                }
            },
            DirEntry::Unreadable { reason } => {},
        }
        assert forall|i: int| 0 <= i < l.records.len() implies lower_parent(
            style,
            (#[trigger] l.records[i]).path,
        ) == Some(dir_key(style, dir)) by {
            if i < before.records.len() {
                assert(l.records[i] == before.records[i]);
            }
        }
        assert(l.subdirs =~= record_paths(l.records.filter(q)));
    }
}

// --------------------------------------------------- what a scan collects --
pub proof fn lemma_all_add(a: Seq<Listing>, b: Seq<Listing>)
    ensures
        all_records(a + b) == all_records(a) + all_records(b),
        all_subdirs(a + b) == all_subdirs(a) + all_subdirs(b),
    decreases b.len(),
{
    if b.len() == 0 {
        assert(a + b =~= a);
        assert(all_records(a) + all_records(b) =~= all_records(a));
        assert(all_subdirs(a) + all_subdirs(b) =~= all_subdirs(a));
    } else {
        assert((a + b).drop_last() =~= a + b.drop_last());
        lemma_all_add(a, b.drop_last());
        assert(all_records(a + b) =~= all_records(a) + all_records(b));
        assert(all_subdirs(a + b) =~= all_subdirs(a) + all_subdirs(b));
    }
}

/// A scan that comes to an end finds the records of the directories it reaches,
/// and every subdirectory of those is reached.
pub proof fn lemma_scan_collects(tree: spec_fn(Seq<char>) -> Listing, todo: Seq<Seq<char>>, depth: nat)
    requires
        scan_tree(tree, todo, depth) is Some,
    ensures
        (scan_tree(tree, todo, depth)->0).0 == all_records(
            reached(tree, todo, depth).map_values(tree),
        ),
        reached(tree, todo, depth) == todo + all_subdirs(
            reached(tree, todo, depth).map_values(tree),
        ),
    decreases depth,
{
    let v = reached(tree, todo, depth);
    if todo.len() == 0 {
        assert(v.map_values(tree) =~= Seq::empty());
        assert(v =~= todo + all_subdirs(v.map_values(tree)));
    } else {
        let ls = todo.map_values(tree);
        let next = all_subdirs(ls);
        lemma_scan_collects(tree, next, (depth - 1) as nat);
        let w = reached(tree, next, (depth - 1) as nat);
        assert(v.map_values(tree) =~= ls + w.map_values(tree));
        lemma_all_add(ls, w.map_values(tree));
    }
}

/// Of all records, those with a directory for parent are that directory's own.
proof fn lemma_own_records(
    style: PathStyle,
    tree: spec_fn(Seq<char>) -> Listing,
    dirs: Seq<Seq<char>>,
    k: int,
)
    requires
        plain_tree(style, tree, dirs),
        0 <= k < dirs.len(),
    ensures
        all_records(dirs.map_values(tree)).filter(child_of(style, dir_key(style, dirs[k]))) == tree(
            dirs[k],
        ).records,
    decreases dirs.len(),
{
    let p = child_of(style, dir_key(style, dirs[k]));
    let short = dirs.drop_last();
    let d = dirs.last();
    let own = tree(d).records;
    let before = all_records(short.map_values(tree));
    assert(dirs.map_values(tree).drop_last() =~= short.map_values(tree));
    assert(dirs.map_values(tree).last() == tree(d));
    assert(shows(style, tree, dirs[dirs.len() - 1]));
    Seq::filter_distributes_over_add(before, own, p);
    assert forall|i: int| 0 <= i < short.len() implies shows(style, tree, #[trigger] short[i]) by {
        assert(short[i] == dirs[i]);
    }
    assert forall|i: int, j: int| 0 <= i < j < short.len() implies dir_key(
        style,
        #[trigger] short[i],
    ) != dir_key(style, #[trigger] short[j]) by {
        assert(short[i] == dirs[i] && short[j] == dirs[j]);
    }
    if k == dirs.len() - 1 {
        lemma_strangers(style, tree, short, dir_key(style, d));
        lemma_filter_all(own, p);
        assert(before.filter(p) + own.filter(p) =~= own);
    } else {
        lemma_own_records(style, tree, short, k);
        assert(dir_key(style, dirs[k]) != dir_key(style, dirs[dirs.len() - 1]));
        lemma_filter_none(own, p);
        assert(before.filter(p) + own.filter(p) =~= before.filter(p));
    }
}

/// Directories other than the one asked for hold none of its records.
proof fn lemma_strangers(
    style: PathStyle,
    tree: spec_fn(Seq<char>) -> Listing,
    dirs: Seq<Seq<char>>,
    lower: Seq<char>,
)
    requires
        forall|i: int| 0 <= i < dirs.len() ==> shows(style, tree, #[trigger] dirs[i]),
        forall|i: int| 0 <= i < dirs.len() ==> dir_key(style, #[trigger] dirs[i]) != lower,
    ensures
        all_records(dirs.map_values(tree)).filter(child_of(style, lower)).len() == 0,
    decreases dirs.len(),
{
    let p = child_of(style, lower);
    if dirs.len() == 0 {
        lemma_filter_none(all_records(dirs.map_values(tree)), p);
    } else {
        let short = dirs.drop_last();
        let own = tree(dirs.last()).records;
        assert forall|i: int| 0 <= i < short.len() implies shows(style, tree, #[trigger] short[i])
            && dir_key(style, short[i]) != lower by {
            assert(short[i] == dirs[i]);
        }
        lemma_strangers(style, tree, short, lower);
        assert(dirs.map_values(tree).drop_last() =~= short.map_values(tree));
        assert(shows(style, tree, dirs[dirs.len() - 1]));
        Seq::filter_distributes_over_add(all_records(short.map_values(tree)), own, p);
        lemma_filter_none(own, p);
    }
}

proof fn lemma_filter_all<T>(s: Seq<T>, p: spec_fn(T) -> bool)
    requires
        forall|i: int| 0 <= i < s.len() ==> p(#[trigger] s[i]),
    ensures
        s.filter(p) == s,
    decreases s.len(),
{
    reveal(Seq::filter);
    if s.len() > 0 {
        lemma_filter_all(s.drop_last(), p);
        assert(p(s[s.len() - 1]));
        assert(s.filter(p) =~= s);
    } else {
        assert(s.filter(p) =~= s);
    }
}

pub proof fn lemma_filter_none<T>(s: Seq<T>, p: spec_fn(T) -> bool)
    requires
        forall|i: int| 0 <= i < s.len() ==> !p(#[trigger] s[i]),
    ensures
        s.filter(p).len() == 0,
    decreases s.len(),
{
    reveal(Seq::filter);
    if s.len() > 0 {
        lemma_filter_none(s.drop_last(), p);
        assert(!p(s[s.len() - 1]));
    }
}

// ------------------------------------------------------ filters as bags --
/// What an item adds to the bag of a filtered and mapped list.
spec fn share<A, B>(p: spec_fn(A) -> bool, g: spec_fn(A) -> B) -> spec_fn(A) -> Multiset<B> {
    |a: A|
        if p(a) {
            Multiset::singleton(g(a))
        } else {
            Multiset::empty()
        }
}

proof fn lemma_filter_bag<A, B>(s: Seq<A>, p: spec_fn(A) -> bool, g: spec_fn(A) -> B)
    ensures
        s.filter(p).map_values(g).to_multiset() == bag(s.map_values(share(p, g))),
    decreases s.len(),
{
    broadcast use vstd::seq_lib::group_to_multiset_ensures;

    reveal(Seq::filter);
    let f = share(p, g);
    if s.len() == 0 {
        assert(s.filter(p).map_values(g) =~= Seq::empty());
        assert(s.filter(p).map_values(g).to_multiset() =~= Multiset::empty());
    } else {
        let short = s.drop_last();
        let x = s.last();
        lemma_filter_bag(short, p, g);
        assert(s.map_values(f).drop_last() =~= short.map_values(f));
        assert(s.map_values(f).last() == f(x));
        if p(x) {
            assert(s.filter(p).map_values(g) =~= short.filter(p).map_values(g).push(g(x)));
            assert(s.filter(p).map_values(g).to_multiset() =~= short.filter(p).map_values(
                g,
            ).to_multiset().add(Multiset::singleton(g(x))));
        } else {
            assert(s.filter(p).map_values(g) =~= short.filter(p).map_values(g));
            assert(s.map_values(f).last() =~= Multiset::empty());
            assert(bag(s.map_values(f)) =~= bag(short.map_values(f)));
        }
    }
}

/// Two filters and a map see the same items in a scan's records and in the
/// numbered and sorted copy of them, as long as they do not look at the ids.
proof fn lemma_same_share<B>(
    found: Seq<Record>,
    snap: Seq<Record>,
    p: spec_fn(Record) -> bool,
    g: spec_fn(Record) -> B,
)
    requires
        finalized(found, snap),
        forall|r: Record, n: nat| #[trigger] p(numbered(r, n)) == p(r),
        forall|r: Record, n: nat| #[trigger] g(numbered(r, n)) == g(r),
    ensures
        found.filter(p).map_values(g).to_multiset() == snap.filter(p).map_values(g).to_multiset(),
{
    let s = choose|s: Seq<Record>| #[trigger]
        is_sorted_copy(found, path_keys(found), s) && snap == Seq::new(
            s.len(),
            |i: int| numbered(s[i], i as nat),
        );
    let f = share(p, g);
    lemma_sorted_copy_items(found, path_keys(found), s);
    lemma_filter_bag(found, p, g);
    lemma_filter_bag(snap, p, g);
    assert(snap.map_values(f) =~= s.map_values(f)) by {
        assert forall|i: int| 0 <= i < s.len() implies #[trigger] f(snap[i]) == f(s[i]) by {
            assert(snap[i] == numbered(s[i], i as nat));
            assert(p(numbered(s[i], i as nat)) == p(s[i]));
            assert(g(numbered(s[i], i as nat)) == g(s[i]));
        }
    }
    lemma_bag_permuted(found, s, f, f);
}

proof fn lemma_filter_twice<T>(s: Seq<T>, p: spec_fn(T) -> bool, q: spec_fn(T) -> bool)
    ensures
        s.filter(p).filter(q) == s.filter(|x: T| p(x) && q(x)),
    decreases s.len(),
{
    reveal(Seq::filter);
    if s.len() == 0 {
        assert(s.filter(p).filter(q) =~= s.filter(|x: T| p(x) && q(x)));
    } else {
        let short = s.drop_last();
        lemma_filter_twice(short, p, q);
        if p(s.last()) {
            assert(s.filter(p).drop_last() =~= short.filter(p));
        }
        assert(s.filter(p).filter(q) =~= s.filter(|x: T| p(x) && q(x)));
    }
}

// ---------------------------------------------------------------- the laws --
/// A snapshot shows, of every directory that was scanned, what was there.
pub proof fn law_snapshot_shows_the_scanned_tree(
    style: PathStyle,
    root: Seq<char>,
    tree: spec_fn(Seq<char>) -> Listing,
    depth: nat,
    full: (Seq<Record>, Seq<Skipped>),
    snap: Seq<Record>,
    k: int,
)
    requires
        scan_tree(tree, seq![root], depth) == Some(full),
        plain_tree(style, tree, reached(tree, seq![root], depth)),
        finalized(full.0, snap),
        0 <= k < reached(tree, seq![root], depth).len(),
    ensures
        same_contents(
            tree(reached(tree, seq![root], depth)[k]),
            cached_listing(style, snap, reached(tree, seq![root], depth)[k]),
        ),
        known(style, root, snap, dir_key(style, reached(tree, seq![root], depth)[k])),
{
    let dirs = reached(tree, seq![root], depth);
    let d = dirs[k];
    let p = child_of(style, dir_key(style, d));
    let q = is_dir_record();
    let both = |r: Record| p(r) && q(r);
    let name = |r: Record| r.path;
    let core = |r: Record| essence(r);
    lemma_scan_collects(tree, seq![root], depth);
    lemma_own_records(style, tree, dirs, k);
    lemma_same_share(full.0, snap, p, core);
    lemma_same_share(full.0, snap, both, name);
    lemma_filter_twice(full.0, p, q);
    lemma_filter_twice(snap, p, q);
    assert(shows(style, tree, d));
    assert(known(style, root, snap, dir_key(style, d))) by {
        if k > 0 {
            let subs = all_subdirs(dirs.map_values(tree));
            assert(dirs[k] == subs[k - 1]);
            assert(dirs.take(dirs.len() as int) =~= dirs);
            lemma_subdir_is_recorded(style, tree, dirs, dirs.len() as int, k - 1);
            let j = choose|j: int|
                0 <= j < full.0.len() && (#[trigger] full.0[j]).is_dir && full.0[j].path == d;
            lemma_finalized_holds(full.0, snap, j);
        }
    }
}

/// Every subdirectory stands among the records as a directory.
proof fn lemma_subdir_is_recorded(
    style: PathStyle,
    tree: spec_fn(Seq<char>) -> Listing,
    dirs: Seq<Seq<char>>,
    n: int,
    i: int,
)
    requires
        forall|j: int| 0 <= j < dirs.len() ==> shows(style, tree, #[trigger] dirs[j]),
        0 <= n <= dirs.len(),
        0 <= i < all_subdirs(dirs.take(n).map_values(tree)).len(),
    ensures
        exists|j: int|
            0 <= j < all_records(dirs.take(n).map_values(tree)).len() && (#[trigger] all_records(
                dirs.take(n).map_values(tree),
            )[j]).is_dir && all_records(dirs.take(n).map_values(tree))[j].path == all_subdirs(
                dirs.take(n).map_values(tree),
            )[i],
    decreases n,
{
    let ls = dirs.take(n).map_values(tree);
    assert(n > 0);
    let short = dirs.take(n - 1).map_values(tree);
    let d = dirs[n - 1];
    assert(ls.drop_last() =~= short);
    assert(ls.last() == tree(d));
    let a = all_records(short);
    let sa = all_subdirs(short);
    assert(shows(style, tree, dirs[n - 1]));
    if i < sa.len() {
        lemma_subdir_is_recorded(style, tree, dirs, n - 1, i);
        let j = choose|j: int|
            0 <= j < a.len() && (#[trigger] a[j]).is_dir && a[j].path == sa[i];
        assert(all_records(ls)[j] == a[j]);
    } else {
        let own = tree(d).records;
        let found = own.filter(is_dir_record());
        let m = i - sa.len();
        assert(all_subdirs(ls)[i] == found[m].path);
        lemma_filter_member(own, is_dir_record(), m);
        let j = choose|j: int| 0 <= j < own.len() && #[trigger] own[j] == found[m];
        assert(all_records(ls)[a.len() + j] == own[j]);
    }
}

/// A record of a scan stands in its finalized copy, under a number.
proof fn lemma_finalized_holds(found: Seq<Record>, snap: Seq<Record>, j: int)
    requires
        finalized(found, snap),
        0 <= j < found.len(),
    ensures
        exists|i: int|
            0 <= i < snap.len() && (#[trigger] snap[i]).path == found[j].path && snap[i].is_dir
                == found[j].is_dir,
{
    broadcast use vstd::seq_lib::group_to_multiset_ensures;

    let s = choose|s: Seq<Record>| #[trigger]
        is_sorted_copy(found, path_keys(found), s) && snap == Seq::new(
            s.len(),
            |i: int| numbered(s[i], i as nat),
        );
    lemma_sorted_copy_items(found, path_keys(found), s);
    assert(found.contains(found[j]));
    assert(s.to_multiset().count(found[j]) > 0);
    assert(s.contains(found[j]));
    let i = choose|i: int| 0 <= i < s.len() && s[i] == found[j];
    assert(snap[i] == numbered(s[i], i as nat));
}

/// Where nothing is dirty, everything a rescan reaches is known to the snapshot.
pub proof fn lemma_reached_is_known(
    style: PathStyle,
    root: Seq<char>,
    snap: Seq<Record>,
    now: spec_fn(Seq<char>) -> Listing,
    todo: Seq<Seq<char>>,
    depth: nat,
)
    requires
        all_known(style, root, snap, todo),
    ensures
        all_known(
            style,
            root,
            snap,
            reached(merged_tree(style, root, snap, Set::empty(), now), todo, depth),
        ),
    decreases depth,
{
    if todo.len() > 0 && depth > 0 {
        let none = Set::<Seq<char>>::empty();
        let m = merged_tree(style, root, snap, none, now);
        law_without_marks_nothing_is_read(style, root, snap, todo);
        law_rescan_walks_merged_tree(style, root, snap, none, now, todo);
        assert(live_dirs(style, root, snap, none, todo).map_values(now) =~= Seq::empty());
        let next = all_subdirs(todo.map_values(m));
        lemma_reached_is_known(style, root, snap, now, next, (depth - 1) as nat);
        let rest = reached(m, next, (depth - 1) as nat);
        assert forall|i: int| 0 <= i < (todo + rest).len() implies known(
            style,
            root,
            snap,
            dir_key(style, #[trigger] (todo + rest)[i]),
        ) by {
            if i < todo.len() {
                assert((todo + rest)[i] == todo[i]);
            } else {
                assert((todo + rest)[i] == rest[i - todo.len()]);
            }
        }
    }
}

/// Known directories are served with records of the snapshot.
proof fn lemma_served_from_snapshot(
    style: PathStyle,
    root: Seq<char>,
    snap: Seq<Record>,
    now: spec_fn(Seq<char>) -> Listing,
    dirs: Seq<Seq<char>>,
    i: int,
)
    requires
        all_known(style, root, snap, dirs),
        0 <= i < all_records(
            dirs.map_values(merged_tree(style, root, snap, Set::empty(), now)),
        ).len(),
    ensures
        snap.contains(
            all_records(dirs.map_values(merged_tree(style, root, snap, Set::empty(), now)))[i],
        ),
    decreases dirs.len(),
{
    let m = merged_tree(style, root, snap, Set::empty(), now);
    let ls = dirs.map_values(m);
    assert(dirs.len() > 0);
    let short = dirs.drop_last();
    let d = dirs.last();
    assert(ls.drop_last() =~= short.map_values(m));
    assert(ls.last() == m(d));
    assert(known(style, root, snap, dir_key(style, dirs[dirs.len() - 1])));
    let a = all_records(short.map_values(m));
    if i < a.len() {
        assert forall|j: int| 0 <= j < short.len() implies known(
            style,
            root,
            snap,
            dir_key(style, #[trigger] short[j]),
        ) by {
            assert(short[j] == dirs[j]);
        }
        lemma_served_from_snapshot(style, root, snap, now, short, i);
    } else {
        assert(m(d) == cached_listing(style, snap, d));
        lemma_filter_member(snap, child_of(style, dir_key(style, d)), i - a.len());
    }
}

/// A subdirectory of a listed directory is among all subdirectories.
pub proof fn lemma_subdir_collected(
    tree: spec_fn(Seq<char>) -> Listing,
    dirs: Seq<Seq<char>>,
    k: int,
    i: int,
)
    requires
        0 <= k < dirs.len(),
        0 <= i < tree(dirs[k]).subdirs.len(),
    ensures
        all_subdirs(dirs.map_values(tree)).contains(tree(dirs[k]).subdirs[i]),
    decreases dirs.len(),
{
    let ls = dirs.map_values(tree);
    let short = dirs.drop_last();
    let a = all_subdirs(short.map_values(tree));
    assert(ls.drop_last() =~= short.map_values(tree));
    assert(ls.last() == tree(dirs.last()));
    if k == dirs.len() - 1 {
        assert(all_subdirs(ls)[a.len() + i] == tree(dirs[k]).subdirs[i]);
    } else {
        lemma_subdir_collected(tree, short, k, i);
        let j = choose|j: int| 0 <= j < a.len() && a[j] == tree(short[k]).subdirs[i];
        assert(all_subdirs(ls)[j] == a[j]);
    }
}

/// What a scan reaches holds every subdirectory of its members.
pub proof fn lemma_reached_is_closed(
    tree: spec_fn(Seq<char>) -> Listing,
    root: Seq<char>,
    depth: nat,
)
    requires
        scan_tree(tree, seq![root], depth) is Some,
    ensures
        closed_under(tree, reached(tree, seq![root], depth).to_set()),
        reached(tree, seq![root], depth).to_set().contains(root),
{
    let dirs = reached(tree, seq![root], depth);
    let set = dirs.to_set();
    lemma_scan_collects(tree, seq![root], depth);
    assert(dirs[0] == root);
    assert forall|d: Seq<char>, i: int|
        set.contains(d) && 0 <= i < tree(d).subdirs.len() implies set.contains(
        #[trigger] tree(d).subdirs[i],
    ) by {
        let k = choose|k: int| 0 <= k < dirs.len() && dirs[k] == d;
        lemma_subdir_collected(tree, dirs, k, i);
        let subs = all_subdirs(dirs.map_values(tree));
        let j = choose|j: int| 0 <= j < subs.len() && subs[j] == tree(d).subdirs[i];
        assert(dirs[j + 1] == subs[j]);
    }
}

/// Without a dirty mark a rescan gives the snapshot back, record by record,
/// whatever has changed on the disk since.
pub proof fn law_unmarked_rescan_serves_the_snapshot(
    style: PathStyle,
    root: Seq<char>,
    tree: spec_fn(Seq<char>) -> Listing,
    now: spec_fn(Seq<char>) -> Listing,
    depth: nat,
    full: (Seq<Record>, Seq<Skipped>),
    snap: Seq<Record>,
    out: Seq<Record>,
)
    requires
        scan_tree(tree, seq![root], depth) == Some(full),
        plain_tree(style, tree, reached(tree, seq![root], depth)),
        distinct_paths(full.0),
        finalized(full.0, snap),
        scan_tree(merged_tree(style, root, snap, Set::empty(), now), seq![root], depth) matches Some(
            found,
        ) ==> finalized(found.0, out),
    ensures
        scan_tree(merged_tree(style, root, snap, Set::empty(), now), seq![root], depth) is Some,
        out == snap,
{
    let m = merged_tree(style, root, snap, Set::empty(), now);
    let dirs = reached(tree, seq![root], depth);
    let set = dirs.to_set();
    lemma_scan_collects(tree, seq![root], depth);
    lemma_reached_is_closed(tree, root, depth);
    assert forall|d: Seq<char>| #[trigger] set.contains(d) implies same_contents(tree(d), m(d)) by {
        let k = choose|k: int| 0 <= k < dirs.len() && dirs[k] == d;
        law_snapshot_shows_the_scanned_tree(style, root, tree, depth, full, snap, k);
        assert(!is_live(style, root, snap, Set::empty(), d));
    }
    assert forall|i: int| 0 <= i < seq![root].len() implies set.contains(
        #[trigger] seq![root][i],
    ) by {
        assert(dirs[0] == root);
    }
    law_scan_sees_contents_only(tree, m, set, seq![root], seq![root], depth);
    let found = scan_tree(m, seq![root], depth)->0;
    lemma_finalized_cores(full.0, snap);
    lemma_finalized_cores(found.0, out);
    assert(distinct_paths(essences(full.0))) by {
        assert forall|i: int, j: int| 0 <= i < j < essences(full.0).len() implies (
        #[trigger] essences(full.0)[i]).path != (#[trigger] essences(full.0)[j]).path by {
            assert(full.0[i].path != full.0[j].path);
        }
    }
    lemma_distinct_transfers(essences(full.0), essences(found.0));
    law_finalize_ignores_order(
        essences(full.0),
        essences(found.0),
        snap.map_values(|r: Record| without_access_time(r)),
        out.map_values(|r: Record| without_access_time(r)),
    );
    let bare = |r: Record| without_access_time(r);
    let s = choose|s: Seq<Record>| #[trigger]
        is_sorted_copy(full.0, path_keys(full.0), s) && snap == Seq::new(
            s.len(),
            |i: int| numbered(s[i], i as nat),
        );
    let t = choose|t: Seq<Record>| #[trigger]
        is_sorted_copy(found.0, path_keys(found.0), t) && out == Seq::new(
            t.len(),
            |i: int| numbered(t[i], i as nat),
        );
    lemma_sorted_copy_items(full.0, path_keys(full.0), s);
    lemma_distinct_transfers(full.0, s);
    lemma_sorted_copy_items(found.0, path_keys(found.0), t);
    lemma_scan_collects(m, seq![root], depth);
    lemma_reached_is_known(style, root, snap, now, seq![root], depth);
    assert(snap.map_values(bare).len() == out.map_values(bare).len());
    assert forall|i: int| 0 <= i < out.len() implies out[i] == snap[i] by {
        assert(out.map_values(bare)[i] == snap.map_values(bare)[i]);
        assert(out[i] == numbered(t[i], i as nat));
        assert(snap[i] == numbered(s[i], i as nat));
        lemma_member_of_both(found.0, t, i);
        let j = choose|j: int| 0 <= j < found.0.len() && found.0[j] == t[i];
        lemma_served_from_snapshot(
            style,
            root,
            snap,
            now,
            reached(m, seq![root], depth),
            j,
        );
        let l = choose|l: int| 0 <= l < snap.len() && snap[l] == t[i];
        assert(snap[l] == numbered(s[l], l as nat));
        if l < i {
            assert(s[l].path != s[i].path);
        } else if i < l {
            assert(s[i].path != s[l].path);
        }
    }
    assert(out =~= snap);
}

/// Lists with the same items have each other's items.
pub proof fn lemma_member_of_both(a: Seq<Record>, b: Seq<Record>, i: int)
    requires
        b.to_multiset() == a.to_multiset(),
        0 <= i < b.len(),
    ensures
        a.contains(b[i]),
{
    broadcast use vstd::seq_lib::group_to_multiset_ensures;

    assert(b.contains(b[i]));
    assert(a.to_multiset().count(b[i]) > 0);
}

} // verus!
