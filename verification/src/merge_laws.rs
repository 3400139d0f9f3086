//! What a differential rescan walks, and why that finds what a full scan finds.
use crate::lists::lemma_filter_member;
use crate::merge::{
    cached_listing, child_of, dir_key, filled, is_dir_record, is_live, known, live_dirs,
    lower_parent, merged_tree, not_revisited, record_paths,
};
use crate::order::{is_sorted_copy, is_stable_order, permuted};
use crate::paths::{
    as_parent, entry_path, is_entry_name, law_parent_of_an_entry, parent, prefix_is_complete,
    PathStyle,
};
use crate::scanner::{
    all_records, all_subdirs, distinct_paths, finalized, law_finalize_ignores_order, numbered,
    path_keys, scan_tree, Listing,
};
use crate::text::lowercase;
use crate::types::{Record, Skipped};
use vstd::multiset::Multiset;
use vstd::prelude::*;

verus! {

/// A rescan that is fed the listings of a tree walks the tree in which the
/// snapshot stands in for every directory that is not read live.
pub proof fn law_rescan_walks_merged_tree(
    style: PathStyle,
    root: Seq<char>,
    snap: Seq<Record>,
    dirty: Set<Seq<char>>,
    tree: spec_fn(Seq<char>) -> Listing,
    todo: Seq<Seq<char>>,
)
    ensures
        filled(
            style,
            root,
            snap,
            dirty,
            todo,
            live_dirs(style, root, snap, dirty, todo).map_values(tree),
        ) == todo.map_values(merged_tree(style, root, snap, dirty, tree)),
    decreases todo.len(),
{
    reveal(Seq::filter);
    let m = merged_tree(style, root, snap, dirty, tree);
    let p = |d: Seq<char>| is_live(style, root, snap, dirty, d);
    let read = live_dirs(style, root, snap, dirty, todo).map_values(tree);
    if todo.len() == 0 {
        assert(filled(style, root, snap, dirty, todo, read) =~= todo.map_values(m));
    } else {
        let short = todo.drop_last();
        law_rescan_walks_merged_tree(style, root, snap, dirty, tree, short);
        let short_read = live_dirs(style, root, snap, dirty, short).map_values(tree);
        assert(todo.map_values(m) =~= short.map_values(m).push(m(todo.last())));
        if is_live(style, root, snap, dirty, todo.last()) {
            assert(read.drop_last() =~= short_read);
            assert(read.last() == tree(todo.last()));
        } else {
            assert(read =~= short_read);
        }
    }
}

/// However a directory is spelled, the snapshot finds its entries.
pub proof fn law_entries_are_found_by_their_directory(
    style: PathStyle,
    dir: Seq<char>,
    name: Seq<char>,
)
    requires
        is_entry_name(style, dir, name),
        prefix_is_complete(style, dir, name),
    ensures
        lower_parent(style, entry_path(style, dir, name)) == Some(dir_key(style, dir)),
{
    reveal(lower_parent);
    reveal(dir_key);
    law_parent_of_an_entry(style, dir, name);
}

// ------------------------------------------------------------ sums of bags --
/// All items of a list of bags together.
pub open spec fn bag<T>(v: Seq<Multiset<T>>) -> Multiset<T>
    decreases v.len(),
{
    if v.len() == 0 {
        Multiset::empty()
    } else {
        bag(v.drop_last()).add(v.last())
    }
}

proof fn lemma_bag_remove<T>(v: Seq<Multiset<T>>, i: int)
    requires
        0 <= i < v.len(),
    ensures
        bag(v) == bag(v.remove(i)).add(v[i]),
    decreases v.len(),
{
    let n = v.len() - 1;
    if i == n {
        assert(v.remove(i) =~= v.drop_last());
    } else {
        lemma_bag_remove(v.drop_last(), i);
        assert(v.remove(i).drop_last() =~= v.drop_last().remove(i));
        assert(v.remove(i).last() == v.last());
        assert(bag(v) =~= bag(v.remove(i)).add(v[i]));
    }
}

pub proof fn lemma_bag_permuted<A, T>(
    a: Seq<A>,
    b: Seq<A>,
    f: spec_fn(A) -> Multiset<T>,
    g: spec_fn(A) -> Multiset<T>,
)
    requires
        a.to_multiset() == b.to_multiset(),
        forall|i: int| 0 <= i < a.len() ==> f(#[trigger] a[i]) == g(a[i]),
    ensures
        bag(a.map_values(f)) == bag(b.map_values(g)),
    decreases a.len(),
{
    broadcast use vstd::seq_lib::group_to_multiset_ensures;

    assert(a.len() == b.len()) by {
        assert(a.to_multiset().len() == a.len());
        assert(b.to_multiset().len() == b.len());
    }
    if a.len() == 0 {
        assert(a.map_values(f) =~= Seq::empty());
        assert(b.map_values(g) =~= Seq::empty());
    } else {
        let x = a.last();
        assert(a.contains(x));
        assert(a.to_multiset().count(x) > 0);
        assert(b.contains(x));
        let i = choose|i: int| 0 <= i < b.len() && b[i] == x;
        let a1 = a.drop_last();
        let b1 = b.remove(i);
        assert(a =~= a1.push(x));
        assert(a1.to_multiset() =~= a.to_multiset().remove(x));
        vstd::seq_lib::to_multiset_remove(b, i);
        assert(b1.to_multiset() =~= b.to_multiset().remove(x));
        assert forall|k: int| 0 <= k < a1.len() implies f(#[trigger] a1[k]) == g(a1[k]) by {
            assert(a1[k] == a[k]);
        }
        lemma_bag_permuted(a1, b1, f, g);
        lemma_bag_remove(b.map_values(g), i);
        assert(b.map_values(g).remove(i) =~= b1.map_values(g));
        assert(a.map_values(f).drop_last() =~= a1.map_values(f));
        assert(a.map_values(f).last() == f(x));
        assert(f(a[a.len() - 1]) == g(a[a.len() - 1]));
    }
}

// --------------------------------------------------------- equal contents --
/// What counts when two scans are compared: everything but the id, which is
/// assigned at the end, and the access time, which may drift between scans.
pub open spec fn essence(r: Record) -> Record {
    Record { id: 0, accessed: 0, ..r }
}

/// Everything but the access time.
pub open spec fn without_access_time(r: Record) -> Record {
    Record { accessed: 0, ..r }
}

pub open spec fn essences(v: Seq<Record>) -> Seq<Record> {
    v.map_values(|r: Record| essence(r))
}

/// Two listings show the same entries, in whatever order.
pub open spec fn same_contents(a: Listing, b: Listing) -> bool {
    &&& essences(a.records).to_multiset() == essences(b.records).to_multiset()
    &&& a.subdirs.to_multiset() == b.subdirs.to_multiset()
}

proof fn lemma_records_bag(v: Seq<Listing>)
    ensures
        essences(all_records(v)).to_multiset() == bag(
            v.map_values(|l: Listing| essences(l.records).to_multiset()),
        ),
    decreases v.len(),
{
    let f = |l: Listing| essences(l.records).to_multiset();
    if v.len() == 0 {
        broadcast use vstd::seq_lib::group_to_multiset_ensures;

        assert(essences(all_records(v)) =~= Seq::empty());
        assert(essences(all_records(v)).to_multiset() =~= Multiset::empty());
    } else {
        lemma_records_bag(v.drop_last());
        let a = all_records(v.drop_last());
        let b = v.last().records;
        assert(essences(a + b) =~= essences(a) + essences(b));
        vstd::seq_lib::lemma_multiset_commutative(essences(a), essences(b));
        assert(v.map_values(f).drop_last() =~= v.drop_last().map_values(f));
    }
}

pub proof fn lemma_subdirs_bag(v: Seq<Listing>)
    ensures
        all_subdirs(v).to_multiset() == bag(v.map_values(|l: Listing| l.subdirs.to_multiset())),
    decreases v.len(),
{
    let f = |l: Listing| l.subdirs.to_multiset();
    if v.len() == 0 {
        broadcast use vstd::seq_lib::group_to_multiset_ensures;

        assert(all_subdirs(v) =~= Seq::empty());
        assert(all_subdirs(v).to_multiset() =~= Multiset::empty());
    } else {
        lemma_subdirs_bag(v.drop_last());
        let a = all_subdirs(v.drop_last());
        let b = v.last().subdirs;
        vstd::seq_lib::lemma_multiset_commutative(a, b);
        assert(v.map_values(f).drop_last() =~= v.drop_last().map_values(f));
    }
}

/// A set of directories that holds every subdirectory of its members.
pub open spec fn closed_under(tree: spec_fn(Seq<char>) -> Listing, dirs: Set<Seq<char>>) -> bool {
    forall|d: Seq<char>, i: int|
        dirs.contains(d) && 0 <= i < tree(d).subdirs.len() ==> dirs.contains(
            #[trigger] tree(d).subdirs[i],
        )
}

pub proof fn lemma_subdirs_inside(
    tree: spec_fn(Seq<char>) -> Listing,
    dirs: Set<Seq<char>>,
    todo: Seq<Seq<char>>,
)
    requires
        closed_under(tree, dirs),
        forall|i: int| 0 <= i < todo.len() ==> dirs.contains(#[trigger] todo[i]),
    ensures
        forall|i: int|
            0 <= i < all_subdirs(todo.map_values(tree)).len() ==> dirs.contains(
                #[trigger] all_subdirs(todo.map_values(tree))[i],
            ),
    decreases todo.len(),
{
    if todo.len() > 0 {
        let short = todo.drop_last();
        let d = todo.last();
        assert(dirs.contains(todo[todo.len() - 1]));
        assert forall|i: int| 0 <= i < short.len() implies dirs.contains(#[trigger] short[i]) by {
            assert(short[i] == todo[i]);
        }
        lemma_subdirs_inside(tree, dirs, short);
        let ls = todo.map_values(tree);
        assert(ls.drop_last() =~= short.map_values(tree));
        let a = all_subdirs(short.map_values(tree));
        assert forall|i: int| 0 <= i < all_subdirs(ls).len() implies dirs.contains(
            #[trigger] all_subdirs(ls)[i],
        ) by {
            if i < a.len() {
                assert(all_subdirs(ls)[i] == a[i]);
            } else {
                assert(all_subdirs(ls)[i] == tree(d).subdirs[i - a.len()]);
            }
        }
    }
}

/// The records two scans find are the same up to order, ids and access times.
pub open spec fn same_records(a: Seq<Record>, b: Seq<Record>) -> bool {
    essences(a).to_multiset() == essences(b).to_multiset()
}

/// Two trees that show the same contents in every directory that can be
/// reached give the same records.
pub proof fn law_scan_sees_contents_only(
    t1: spec_fn(Seq<char>) -> Listing,
    t2: spec_fn(Seq<char>) -> Listing,
    dirs: Set<Seq<char>>,
    a: Seq<Seq<char>>,
    b: Seq<Seq<char>>,
    depth: nat,
)
    requires
        closed_under(t1, dirs),
        forall|d: Seq<char>| #[trigger] dirs.contains(d) ==> same_contents(t1(d), t2(d)),
        forall|i: int| 0 <= i < a.len() ==> dirs.contains(#[trigger] a[i]),
        a.to_multiset() == b.to_multiset(),
    ensures
        match (scan_tree(t1, a, depth), scan_tree(t2, b, depth)) {
            (Some((r1, _)), Some((r2, _))) => same_records(r1, r2),
            (None, None) => true,
            _ => false,
        },
    decreases depth,
{
    broadcast use vstd::seq_lib::group_to_multiset_ensures;

    assert(a.len() == b.len()) by {
        assert(a.to_multiset().len() == a.len());
        assert(b.to_multiset().len() == b.len());
    }
    if a.len() > 0 && depth > 0 {
        let l1 = a.map_values(t1);
        let l2 = b.map_values(t2);
        let fr1 = |d: Seq<char>| essences(t1(d).records).to_multiset();
        let fr2 = |d: Seq<char>| essences(t2(d).records).to_multiset();
        let fd1 = |d: Seq<char>| t1(d).subdirs.to_multiset();
        let fd2 = |d: Seq<char>| t2(d).subdirs.to_multiset();
        assert forall|i: int| 0 <= i < a.len() implies fr1(#[trigger] a[i]) == fr2(a[i]) && fd1(a[i])
            == fd2(a[i]) by {
            assert(dirs.contains(a[i]));
        }
        lemma_bag_permuted(a, b, fr1, fr2);
        lemma_bag_permuted(a, b, fd1, fd2);
        lemma_records_bag(l1);
        lemma_records_bag(l2);
        lemma_subdirs_bag(l1);
        lemma_subdirs_bag(l2);
        assert(l1.map_values(|l: Listing| essences(l.records).to_multiset()) =~= a.map_values(fr1));
        assert(l2.map_values(|l: Listing| essences(l.records).to_multiset()) =~= b.map_values(fr2));
        assert(l1.map_values(|l: Listing| l.subdirs.to_multiset()) =~= a.map_values(fd1));
        assert(l2.map_values(|l: Listing| l.subdirs.to_multiset()) =~= b.map_values(fd2));
        lemma_subdirs_inside(t1, dirs, a);
        law_scan_sees_contents_only(
            t1,
            t2,
            dirs,
            all_subdirs(l1),
            all_subdirs(l2),
            (depth - 1) as nat,
        );
        match (
            scan_tree(t1, all_subdirs(l1), (depth - 1) as nat),
            scan_tree(t2, all_subdirs(l2), (depth - 1) as nat),
        ) {
            (Some((r1, _)), Some((r2, _))) => {
                let x1 = all_records(l1);
                let x2 = all_records(l2);
                assert(essences(x1 + r1) =~= essences(x1) + essences(r1));
                assert(essences(x2 + r2) =~= essences(x2) + essences(r2));
                vstd::seq_lib::lemma_multiset_commutative(essences(x1), essences(r1));
                vstd::seq_lib::lemma_multiset_commutative(essences(x2), essences(r2));
            },
            _ => {},
        }
    }
}

/// The set of changed directories is accurate: of every other directory that
/// can be reached, the snapshot shows what is really there.
pub open spec fn accurate(
    style: PathStyle,
    root: Seq<char>,
    snap: Seq<Record>,
    dirty: Set<Seq<char>>,
    tree: spec_fn(Seq<char>) -> Listing,
    dirs: Set<Seq<char>>,
) -> bool {
    forall|d: Seq<char>| #[trigger]
        dirs.contains(d) && !is_live(style, root, snap, dirty, d) ==> same_contents(
            tree(d),
            cached_listing(style, snap, d),
        )
}

pub proof fn lemma_finalized_cores(a: Seq<Record>, x: Seq<Record>)
    requires
        finalized(a, x),
    ensures
        finalized(essences(a), x.map_values(|r: Record| without_access_time(r))),
{
    let s = choose|s: Seq<Record>| #[trigger]
        is_sorted_copy(a, path_keys(a), s) && x == Seq::new(
            s.len(),
            |i: int| numbered(s[i], i as nat),
        );
    let p = choose|p: Seq<usize>| is_stable_order(path_keys(a), p) && #[trigger] permuted(a, p, s);
    assert(path_keys(essences(a)) =~= path_keys(a));
    assert(permuted(essences(a), p, essences(s)));
    assert(is_sorted_copy(essences(a), path_keys(essences(a)), essences(s)));
    assert(x.map_values(|r: Record| without_access_time(r)) =~= Seq::new(
        essences(s).len(),
        |i: int| numbered(essences(s)[i], i as nat),
    ));
}

/// Where the snapshot is accurate, a scan of the merged tree finds the records of
/// a scan of the real one.
pub proof fn lemma_accurate_rescan(
    style: PathStyle,
    root: Seq<char>,
    snap: Seq<Record>,
    dirty: Set<Seq<char>>,
    tree: spec_fn(Seq<char>) -> Listing,
    dirs: Set<Seq<char>>,
    depth: nat,
    full: (Seq<Record>, Seq<Skipped>),
    full_out: Seq<Record>,
    rescan_out: Seq<Record>,
)
    requires
        dirs.contains(root),
        closed_under(tree, dirs),
        accurate(style, root, snap, dirty, tree, dirs),
        scan_tree(tree, seq![root], depth) == Some(full),
        distinct_paths(full.0),
        finalized(full.0, full_out),
        scan_tree(merged_tree(style, root, snap, dirty, tree), seq![root], depth) matches Some(
            found,
        ) ==> finalized(found.0, rescan_out),
    ensures
        scan_tree(merged_tree(style, root, snap, dirty, tree), seq![root], depth) is Some,
        full_out.map_values(|r: Record| without_access_time(r)) == rescan_out.map_values(
            |r: Record| without_access_time(r),
        ),
{
    broadcast use vstd::seq_lib::group_to_multiset_ensures;

    let m = merged_tree(style, root, snap, dirty, tree);
    assert forall|d: Seq<char>| #[trigger] dirs.contains(d) implies same_contents(tree(d), m(d)) by {
    }
    assert forall|i: int| 0 <= i < seq![root].len() implies dirs.contains(
        #[trigger] seq![root][i],
    ) by {}
    law_scan_sees_contents_only(tree, m, dirs, seq![root], seq![root], depth);
    let found = scan_tree(m, seq![root], depth)->0;
    lemma_finalized_cores(full.0, full_out);
    lemma_finalized_cores(found.0, rescan_out);
    assert(distinct_paths(essences(full.0))) by {
        assert forall|i: int, j: int| 0 <= i < j < essences(full.0).len() implies (
        #[trigger] essences(full.0)[i]).path != (#[trigger] essences(full.0)[j]).path by {
            assert(full.0[i].path != full.0[j].path);
        }
    }
    lemma_distinct_transfers(essences(full.0), essences(found.0));
    law_finalize_ignores_order(
        essences(full.0),
        essences(found.0),
        full_out.map_values(|r: Record| without_access_time(r)),
        rescan_out.map_values(|r: Record| without_access_time(r)),
    );
}

pub proof fn lemma_distinct_transfers(a: Seq<Record>, b: Seq<Record>)
    requires
        a.to_multiset() == b.to_multiset(),
        distinct_paths(a),
    ensures
        distinct_paths(b),
{
    broadcast use vstd::seq_lib::group_to_multiset_ensures;

    assert forall|i: int, j: int| 0 <= i < j < b.len() implies (#[trigger] b[i]).path
        != (#[trigger] b[j]).path by {
        if b[i].path == b[j].path {
            let x = b[i];
            let y = b[j];
            assert(b.contains(x) && b.contains(y));
            assert(b.to_multiset().count(x) > 0 && b.to_multiset().count(y) > 0);
            assert(a.contains(x) && a.contains(y));
            let k = choose|k: int| 0 <= k < a.len() && a[k] == x;
            let l = choose|l: int| 0 <= l < a.len() && a[l] == y;
            if x != y {
                if k < l {
                    assert(a[k].path != a[l].path);
                } else {
                    assert(a[l].path != a[k].path);
                }
            } else {
                // The item stands twice in `b`, so it stands twice in `a`.
                let c = b.remove(j);
                vstd::seq_lib::to_multiset_remove(b, j);
                assert(c[i] == x);
                assert(c.contains(x));
                assert(c.to_multiset().count(x) > 0);
                assert(b.to_multiset().count(x) >= 2);
                let d = a.remove(k);
                vstd::seq_lib::to_multiset_remove(a, k);
                assert(d.to_multiset().count(x) > 0);
                assert(d.contains(x));
                let q = choose|q: int| 0 <= q < d.len() && d[q] == x;
                if q < k {
                    assert(a[q] == x);
                    assert(a[q].path != a[k].path);
                } else {
                    assert(a[q + 1] == x);
                    assert(a[k].path != a[q + 1].path);
                }
            }
        }
    }
}

// ------------------------------------------------------- nothing changed --
/// Every directory of a list is one the snapshot knows.
pub open spec fn all_known(
    style: PathStyle,
    root: Seq<char>,
    snap: Seq<Record>,
    todo: Seq<Seq<char>>,
) -> bool {
    forall|i: int|
        0 <= i < todo.len() ==> known(style, root, snap, dir_key(style, #[trigger] todo[i]))
}

/// Without a dirty mark no directory is ever read: a rescan starts in a
/// directory the snapshot knows, reads none of those, and what the snapshot
/// shows leads only to more of them.
pub proof fn law_without_marks_nothing_is_read(
    style: PathStyle,
    root: Seq<char>,
    snap: Seq<Record>,
    todo: Seq<Seq<char>>,
)
    requires
        all_known(style, root, snap, todo),
    ensures
        all_known(style, root, snap, seq![root]),
        live_dirs(style, root, snap, Set::empty(), todo) == Seq::<Seq<char>>::empty(),
        all_known(
            style,
            root,
            snap,
            all_subdirs(filled(style, root, snap, Set::empty(), todo, Seq::empty())),
        ),
    decreases todo.len(),
{
    reveal(Seq::filter);
    let none = Set::<Seq<char>>::empty();
    if todo.len() == 0 {
        assert(live_dirs(style, root, snap, none, todo) =~= Seq::empty());
    } else {
        let short = todo.drop_last();
        let d = todo.last();
        assert(known(style, root, snap, dir_key(style, todo[todo.len() - 1])));
        assert forall|i: int| 0 <= i < short.len() implies known(
            style,
            root,
            snap,
            dir_key(style, #[trigger] short[i]),
        ) by {
            assert(short[i] == todo[i]);
        }
        law_without_marks_nothing_is_read(style, root, snap, short);
        let ls = filled(style, root, snap, none, todo, Seq::empty());
        let before = filled(style, root, snap, none, short, Seq::empty());
        assert(ls == before.push(cached_listing(style, snap, d)));
        assert(ls.drop_last() =~= before);
        let a = all_subdirs(before);
        let b = cached_listing(style, snap, d).subdirs;
        let p = child_of(style, dir_key(style, d));
        let q = is_dir_record();
        let children = snap.filter(p);
        let found = children.filter(q);
        assert(all_subdirs(ls) == a + b);
        assert forall|i: int| 0 <= i < (a + b).len() implies known(
            style,
            root,
            snap,
            dir_key(style, #[trigger] (a + b)[i]),
        ) by {
            if i < a.len() {
                assert((a + b)[i] == a[i]);
            } else {
                let j = i - a.len();
                let r = found[j];
                assert((a + b)[i] == r.path);
                lemma_filter_member(children, q, j);
                let k = choose|k: int| 0 <= k < children.len() && #[trigger] children[k] == r;
                lemma_filter_member(snap, p, k);
                let m = choose|m: int| 0 <= m < snap.len() && #[trigger] snap[m] == children[k];
                assert(snap[m].is_dir);
            }
        }
    }
}

/// A directory is read from the disk where it is marked, and where the snapshot has
/// no record of it; a directory that the snapshot knows and that is not marked is
/// not.
pub proof fn law_marked_or_new_directories_are_read(
    style: PathStyle,
    root: Seq<char>,
    snap: Seq<Record>,
    dirty: Set<Seq<char>>,
    dir: Seq<char>,
)
    ensures
        dirty.contains(lowercase(dir)) || dirty.contains(lowercase(as_parent(style, dir)))
            ==> is_live(style, root, snap, dirty, dir),
        lowercase(as_parent(style, dir)) != lowercase(as_parent(style, root)) && (forall|i: int|
            0 <= i < snap.len() && (#[trigger] snap[i]).is_dir ==> lowercase(
                as_parent(style, snap[i].path),
            ) != lowercase(as_parent(style, dir))) ==> is_live(style, root, snap, dirty, dir),
        !dirty.contains(lowercase(dir)) && !dirty.contains(lowercase(as_parent(style, dir)))
            && (exists|i: int|
            0 <= i < snap.len() && (#[trigger] snap[i]).is_dir && snap[i].path == dir) ==> !is_live(
            style,
            root,
            snap,
            dirty,
            dir,
        ),
{
    reveal(dir_key);
    if exists|i: int| 0 <= i < snap.len() && (#[trigger] snap[i]).is_dir && snap[i].path == dir {
        let i = choose|i: int|
            0 <= i < snap.len() && (#[trigger] snap[i]).is_dir && snap[i].path == dir;
        assert(dir_key(style, snap[i].path) == dir_key(style, dir));
    }
}

/// The snapshot shows of a directory the records whose parent it is, whatever their
/// fields, and as its subdirectories those of them that are directories.
pub proof fn law_snapshot_shows_the_children(
    style: PathStyle,
    snap: Seq<Record>,
    dir: Seq<char>,
    i: int,
)
    requires
        0 <= i < snap.len(),
        parent(style, snap[i].path) matches Some(p) && lowercase(p) == lowercase(
            as_parent(style, dir),
        ),
    ensures
        cached_listing(style, snap, dir).records.contains(snap[i]),
        snap[i].is_dir ==> cached_listing(style, snap, dir).subdirs.contains(snap[i].path),
        cached_listing(style, snap, dir).skipped.len() == 0,
{
    reveal(dir_key);
    reveal(lower_parent);
    let f = child_of(style, dir_key(style, dir));
    let children = snap.filter(f);
    snap.lemma_filter_contains(f, i);
    let k = choose|k: int| 0 <= k < children.len() && children[k] == snap[i];
    if snap[i].is_dir {
        let g = is_dir_record();
        children.lemma_filter_contains(g, k);
        let dirs = children.filter(g);
        let m = choose|m: int| 0 <= m < dirs.len() && dirs[m] == children[k];
        assert(record_paths(dirs)[m] == snap[i].path);
    }
}

/// A note of the snapshot stays unless its own directory, or the one that holds it,
/// was read again.
pub proof fn law_notes_stay_until_read_again(style: PathStyle, live: Set<Seq<char>>, s: Skipped)
    ensures
        not_revisited(style, live)(s) <==> {
            &&& !live.contains(lowercase(as_parent(style, s.path)))
            &&& parent(style, s.path) matches Some(p) ==> !live.contains(lowercase(p))
        },
{
    reveal(dir_key);
    reveal(lower_parent);
}

} // verus!
