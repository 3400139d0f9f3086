//! Whole rescans: what a run of steps from the start to the end comes to.
use crate::lists::lemma_filter_member;
use crate::merge::{
    cached_listing, dir_key, dir_keys, is_dir_record, is_live, is_marked, known, live_dirs,
    merged_tree, MergeScan,
};
use crate::merge_laws::{
    accurate, closed_under, law_rescan_walks_merged_tree, law_without_marks_nothing_is_read,
    lemma_accurate_rescan, lemma_bag_permuted, lemma_subdirs_bag, lemma_subdirs_inside,
    same_contents, without_access_time,
};
use crate::merge_verbatim::{
    law_snapshot_shows_the_scanned_tree, law_unmarked_rescan_serves_the_snapshot, lemma_filter_none,
    lemma_member_of_both, lemma_reached_is_closed, lemma_reached_is_known, lemma_scan_collects,
    plain_tree, reached, shows,
};
use crate::order::{is_sorted_copy, lemma_sorted_copy_items};
use crate::paths::{as_parent, PathStyle};
use crate::scanner::{
    all_records, all_subdirs, distinct_paths, finalized, is_walk, law_walk_scans_the_tree, numbered,
    path_keys, scan_tree, walk_step, Listing, ScanOutcome, Walk,
};
use crate::types::{records, Record, Skipped};
use vstd::prelude::*;

verus! {

// ------------------------------------------------------------- two trees --
/// The directory shows in the new tree what it showed in the old one.
pub open spec fn unchanged(
    old_tree: spec_fn(Seq<char>) -> Listing,
    old_dirs: Seq<Seq<char>>,
    new_tree: spec_fn(Seq<char>) -> Listing,
    d: Seq<char>,
) -> bool {
    old_dirs.contains(d) && same_contents(old_tree(d), new_tree(d))
}

/// No old directory can be mistaken for this one.
pub open spec fn is_new(style: PathStyle, old_dirs: Seq<Seq<char>>, d: Seq<char>) -> bool {
    forall|j: int|
        0 <= j < old_dirs.len() ==> dir_key(style, #[trigger] old_dirs[j]) != dir_key(style, d)
}

/// Every directory of the new tree that is not simply new and in which the two
/// trees differ is marked.
pub open spec fn marks_cover(
    style: PathStyle,
    old_tree: spec_fn(Seq<char>) -> Listing,
    old_dirs: Seq<Seq<char>>,
    new_tree: spec_fn(Seq<char>) -> Listing,
    new_dirs: Seq<Seq<char>>,
    dirty: Set<Seq<char>>,
) -> bool {
    forall|i: int|
        0 <= i < new_dirs.len() ==> is_marked(style, dirty, #[trigger] new_dirs[i]) || is_new(
            style,
            old_dirs,
            new_dirs[i],
        ) || unchanged(old_tree, old_dirs, new_tree, new_dirs[i])
}

/// A record of the snapshot was found by the scan.
proof fn lemma_snapshot_record(found: Seq<Record>, snap: Seq<Record>, i: int)
    requires
        finalized(found, snap),
        0 <= i < snap.len(),
    ensures
        exists|j: int|
            0 <= j < found.len() && (#[trigger] found[j]).path == snap[i].path && found[j].is_dir
                == snap[i].is_dir,
{
    let s = choose|s: Seq<Record>| #[trigger]
        is_sorted_copy(found, path_keys(found), s) && snap == Seq::new(
            s.len(),
            |i: int| numbered(s[i], i as nat),
        );
    lemma_sorted_copy_items(found, path_keys(found), s);
    lemma_member_of_both(found, s, i);
    assert(snap[i] == numbered(s[i], i as nat));
    let j = choose|j: int| 0 <= j < found.len() && found[j] == s[i];
    assert(found[j].path == snap[i].path);
}

/// A directory among the records stands among the subdirectories.
proof fn lemma_recorded_is_subdir(
    style: PathStyle,
    tree: spec_fn(Seq<char>) -> Listing,
    dirs: Seq<Seq<char>>,
    i: int,
)
    requires
        forall|j: int| 0 <= j < dirs.len() ==> shows(style, tree, #[trigger] dirs[j]),
        0 <= i < all_records(dirs.map_values(tree)).len(),
        all_records(dirs.map_values(tree))[i].is_dir,
    ensures
        all_subdirs(dirs.map_values(tree)).contains(all_records(dirs.map_values(tree))[i].path),
    decreases dirs.len(),
{
    let ls = dirs.map_values(tree);
    assert(dirs.len() > 0);
    let short = dirs.drop_last();
    let d = dirs.last();
    assert(ls.drop_last() =~= short.map_values(tree));
    assert(ls.last() == tree(d));
    assert(shows(style, tree, dirs[dirs.len() - 1]));
    let a = all_records(short.map_values(tree));
    let sa = all_subdirs(short.map_values(tree));
    if i < a.len() {
        assert forall|j: int| 0 <= j < short.len() implies shows(style, tree, #[trigger] short[j]) by {
            assert(short[j] == dirs[j]);
        }
        assert(all_records(ls)[i] == a[i]);
        lemma_recorded_is_subdir(style, tree, short, i);
        let k = choose|k: int| 0 <= k < sa.len() && sa[k] == a[i].path;
        assert(all_subdirs(ls)[k] == sa[k]);
    } else {
        let own = tree(d).records;
        let m = i - a.len();
        assert(all_records(ls)[i] == own[m]);
        own.lemma_filter_contains(is_dir_record(), m);
        let found = own.filter(is_dir_record());
        let k = choose|k: int| 0 <= k < found.len() && found[k] == own[m];
        assert(tree(d).subdirs[k] == own[m].path);
        assert(all_subdirs(ls)[sa.len() + k] == tree(d).subdirs[k]);
    }
}

/// The directories a snapshot knows are those that its scan reached.
proof fn lemma_known_was_reached(
    style: PathStyle,
    root: Seq<char>,
    tree: spec_fn(Seq<char>) -> Listing,
    depth: nat,
    found: (Seq<Record>, Seq<Skipped>),
    snap: Seq<Record>,
    key: Seq<char>,
)
    requires
        scan_tree(tree, seq![root], depth) == Some(found),
        plain_tree(style, tree, reached(tree, seq![root], depth)),
        finalized(found.0, snap),
        known(style, root, snap, key),
    ensures
        exists|j: int|
            0 <= j < reached(tree, seq![root], depth).len() && dir_key(
                style,
                #[trigger] reached(tree, seq![root], depth)[j],
            ) == key,
{
    let dirs = reached(tree, seq![root], depth);
    lemma_scan_collects(tree, seq![root], depth);
    if key == dir_key(style, root) {
        assert(dirs[0] == root);
    } else {
        let i = choose|i: int|
            0 <= i < snap.len() && (#[trigger] snap[i]).is_dir && dir_key(style, snap[i].path)
                == key;
        lemma_snapshot_record(found.0, snap, i);
        let j = choose|j: int|
            0 <= j < found.0.len() && (#[trigger] found.0[j]).path == snap[i].path
                && found.0[j].is_dir == snap[i].is_dir;
        lemma_recorded_is_subdir(style, tree, dirs, j);
        let subs = all_subdirs(dirs.map_values(tree));
        let k = choose|k: int| 0 <= k < subs.len() && subs[k] == found.0[j].path;
        assert(dirs[k + 1] == subs[k]);
    }
}

/// Where the marks cover all differences, the snapshot of the old tree is
/// accurate for the new one.
proof fn lemma_marked_snapshot_is_accurate(
    style: PathStyle,
    root: Seq<char>,
    old_tree: spec_fn(Seq<char>) -> Listing,
    new_tree: spec_fn(Seq<char>) -> Listing,
    dirty: Set<Seq<char>>,
    old_depth: nat,
    new_depth: nat,
    old_found: (Seq<Record>, Seq<Skipped>),
    snap: Seq<Record>,
)
    requires
        scan_tree(old_tree, seq![root], old_depth) == Some(old_found),
        plain_tree(style, old_tree, reached(old_tree, seq![root], old_depth)),
        finalized(old_found.0, snap),
        marks_cover(
            style,
            old_tree,
            reached(old_tree, seq![root], old_depth),
            new_tree,
            reached(new_tree, seq![root], new_depth),
            dirty,
        ),
    ensures
        accurate(
            style,
            root,
            snap,
            dirty,
            new_tree,
            reached(new_tree, seq![root], new_depth).to_set(),
        ),
{
    let old_dirs = reached(old_tree, seq![root], old_depth);
    let new_dirs = reached(new_tree, seq![root], new_depth);
    assert forall|d: Seq<char>| #[trigger]
        new_dirs.to_set().contains(d) && !is_live(style, root, snap, dirty, d) implies same_contents(
        new_tree(d),
        cached_listing(style, snap, d),
    ) by {
        let i = choose|i: int| 0 <= i < new_dirs.len() && new_dirs[i] == d;
        assert(!is_marked(style, dirty, new_dirs[i]));
        lemma_known_was_reached(
            style,
            root,
            old_tree,
            old_depth,
            old_found,
            snap,
            dir_key(style, d),
        );
        assert(!is_new(style, old_dirs, d));
        assert(unchanged(old_tree, old_dirs, new_tree, d));
        let k = choose|k: int| 0 <= k < old_dirs.len() && old_dirs[k] == d;
        law_snapshot_shows_the_scanned_tree(style, root, old_tree, old_depth, old_found, snap, k);
    }
}

/// A snapshot of the old tree and marks on every directory in which the new tree
/// differs are enough: a rescan ends with exactly the records of a fresh full
/// scan of the new tree, except for access times. The old tree may not hold
/// directories that differ in case alone.
pub proof fn law_rescan_equals_full_scan(
    style: PathStyle,
    root: Seq<char>,
    old_tree: spec_fn(Seq<char>) -> Listing,
    new_tree: spec_fn(Seq<char>) -> Listing,
    dirty: Set<Seq<char>>,
    old_depth: nat,
    new_depth: nat,
    old_found: (Seq<Record>, Seq<Skipped>),
    snap: Seq<Record>,
    new_found: (Seq<Record>, Seq<Skipped>),
    full_out: Seq<Record>,
    rescan_out: Seq<Record>,
)
    requires
        scan_tree(old_tree, seq![root], old_depth) == Some(old_found),
        plain_tree(style, old_tree, reached(old_tree, seq![root], old_depth)),
        finalized(old_found.0, snap),
        scan_tree(new_tree, seq![root], new_depth) == Some(new_found),
        distinct_paths(new_found.0),
        finalized(new_found.0, full_out),
        marks_cover(
            style,
            old_tree,
            reached(old_tree, seq![root], old_depth),
            new_tree,
            reached(new_tree, seq![root], new_depth),
            dirty,
        ),
        scan_tree(merged_tree(style, root, snap, dirty, new_tree), seq![root], new_depth) matches Some(
            found,
        ) ==> finalized(found.0, rescan_out),
    ensures
        scan_tree(merged_tree(style, root, snap, dirty, new_tree), seq![root], new_depth) is Some,
        full_out.map_values(|r: Record| without_access_time(r)) == rescan_out.map_values(
            |r: Record| without_access_time(r),
        ),
{
    lemma_marked_snapshot_is_accurate(
        style,
        root,
        old_tree,
        new_tree,
        dirty,
        old_depth,
        new_depth,
        old_found,
        snap,
    );
    lemma_reached_is_closed(new_tree, root, new_depth);
    lemma_accurate_rescan(
        style,
        root,
        snap,
        dirty,
        new_tree,
        reached(new_tree, seq![root], new_depth).to_set(),
        new_depth,
        new_found,
        full_out,
        rescan_out,
    );
}

// ------------------------------------------------------------- whole runs --
/// A rescan was fed the listings that it asked for, as `tree` gives them.
pub open spec fn rescan_step(
    tree: spec_fn(Seq<char>) -> Listing,
    states: Seq<MergeScan>,
    i: int,
) -> bool {
    &&& states[i].todo().len() > 0
    &&& states[i].fed(states[i].live_todo().map_values(tree), states[i + 1])
}

/// The states of a rescan from its start to its end.
pub open spec fn is_rescan(
    style: PathStyle,
    root: Seq<char>,
    snapshot: ScanOutcome,
    dirty: Set<Seq<char>>,
    tree: spec_fn(Seq<char>) -> Listing,
    states: Seq<MergeScan>,
) -> bool {
    &&& states.len() > 0
    &&& states[0].fresh(style, root, snapshot, dirty)
    &&& forall|i: int| 0 <= i < states.len() - 1 ==> #[trigger] rescan_step(tree, states, i)
    &&& states.last().todo().len() == 0
}

proof fn lemma_same_request(
    style: PathStyle,
    root: Seq<char>,
    snapshot: ScanOutcome,
    dirty: Set<Seq<char>>,
    tree: spec_fn(Seq<char>) -> Listing,
    states: Seq<MergeScan>,
    i: int,
)
    requires
        is_rescan(style, root, snapshot, dirty, tree, states),
        0 <= i < states.len(),
    ensures
        states[i].style() == style,
        states[i].root() == root,
        states[i].snap() == records(snapshot.records@),
        states[i].dirty() == dirty,
    decreases i,
{
    if i > 0 {
        lemma_same_request(style, root, snapshot, dirty, tree, states, i - 1);
        assert(rescan_step(tree, states, i - 1));
    }
}

/// The walks inside a rescan.
pub open spec fn walks(states: Seq<MergeScan>) -> Seq<Walk> {
    states.map_values(|s: MergeScan| s.walk())
}

/// Inside, a rescan is a scan of the merged tree.
proof fn lemma_rescan_is_walk(
    style: PathStyle,
    root: Seq<char>,
    snapshot: ScanOutcome,
    dirty: Set<Seq<char>>,
    tree: spec_fn(Seq<char>) -> Listing,
    states: Seq<MergeScan>,
)
    requires
        is_rescan(style, root, snapshot, dirty, tree, states),
    ensures
        is_walk(
            merged_tree(style, root, records(snapshot.records@), dirty, tree),
            root,
            walks(states),
        ),
{
    let snap = records(snapshot.records@);
    let m = merged_tree(style, root, snap, dirty, tree);
    let ws = walks(states);
    assert forall|i: int| 0 <= i < ws.len() - 1 implies #[trigger] walk_step(m, ws, i) by {
        assert(rescan_step(tree, states, i));
        lemma_same_request(style, root, snapshot, dirty, tree, states, i);
        law_rescan_walks_merged_tree(style, root, snap, dirty, tree, states[i].todo());
    }
}

// ------------------------------------------------------ directories read --
proof fn lemma_keys_add(style: PathStyle, a: Seq<Seq<char>>, b: Seq<Seq<char>>)
    ensures
        dir_keys(style, a + b) == dir_keys(style, a).union(dir_keys(style, b)),
{
    let f = |d: Seq<char>| as_parent(style, d);
    let g = |d: Seq<char>| crate::text::lowercase(d);
    let x = a.map_values(f).map_values(g);
    let y = b.map_values(f).map_values(g);
    let z = (a + b).map_values(f).map_values(g);
    assert(z =~= x + y);
    assert forall|k: Seq<char>| z.to_set().contains(k) <==> x.to_set().union(y.to_set()).contains(
        k,
    ) by {
        if x.contains(k) {
            let i = choose|i: int| 0 <= i < x.len() && x[i] == k;
            assert(z[i] == k);
        }
        if y.contains(k) {
            let i = choose|i: int| 0 <= i < y.len() && y[i] == k;
            assert(z[x.len() + i] == k);
        }
        if z.contains(k) {
            let i = choose|i: int| 0 <= i < z.len() && z[i] == k;
            if i < x.len() {
                assert(x[i] == k);
            } else {
                assert(y[i - x.len()] == k);
            }
        }
    }
    assert(z.to_set() =~= x.to_set().union(y.to_set()));
}

/// What a rescan has read at its end, seen from one of its states.
proof fn lemma_read_from(
    style: PathStyle,
    root: Seq<char>,
    snapshot: ScanOutcome,
    dirty: Set<Seq<char>>,
    tree: spec_fn(Seq<char>) -> Listing,
    states: Seq<MergeScan>,
    j: int,
)
    requires
        is_rescan(style, root, snapshot, dirty, tree, states),
        0 <= j < states.len(),
    ensures
        states.last().live() == states[j].live().union(
            dir_keys(
                style,
                live_dirs(
                    style,
                    root,
                    records(snapshot.records@),
                    dirty,
                    reached(
                        merged_tree(style, root, records(snapshot.records@), dirty, tree),
                        states[j].todo(),
                        (states.len() - 1 - j) as nat,
                    ),
                ),
            ),
        ),
    decreases states.len() - j,
{
    let n = states.len() - 1;
    let snap = records(snapshot.records@);
    let m = merged_tree(style, root, snap, dirty, tree);
    let p = |d: Seq<char>| is_live(style, root, snap, dirty, d);
    let todo = states[j].todo();
    lemma_same_request(style, root, snapshot, dirty, tree, states, j);
    if j == n {
        let none = live_dirs(style, root, snap, dirty, reached(m, todo, 0));
        assert(reached(m, todo, 0) =~= Seq::empty());
        lemma_filter_none(reached(m, todo, 0), p);
        assert(none =~= Seq::empty());
        lemma_no_keys(style);
        assert(states[j].live().union(dir_keys(style, none)) =~= states[j].live());
    } else {
        lemma_read_from(style, root, snapshot, dirty, tree, states, j + 1);
        assert(rescan_step(tree, states, j));
        law_rescan_walks_merged_tree(style, root, snap, dirty, tree, todo);
        let next = states[j + 1].todo();
        assert(next == all_subdirs(todo.map_values(m)));
        let rest = reached(m, next, (n - j - 1) as nat);
        assert(reached(m, todo, (n - j) as nat) == todo + rest);
        Seq::filter_distributes_over_add(todo, rest, p);
        lemma_keys_add(style, todo.filter(p), rest.filter(p));
        assert(states[j].live().union(dir_keys(style, todo.filter(p))).union(
            dir_keys(style, rest.filter(p)),
        ) =~= states[j].live().union(
            dir_keys(style, todo.filter(p)).union(dir_keys(style, rest.filter(p))),
        ));
    }
}

proof fn lemma_no_keys(style: PathStyle)
    ensures
        dir_keys(style, Seq::empty()) == Set::<Seq<char>>::empty(),
{
    let none = Seq::<Seq<char>>::empty();
    assert(none.map_values(|d: Seq<char>| as_parent(style, d)) =~= none);
    assert(none.map_values(|d: Seq<char>| crate::text::lowercase(d)) =~= none);
    assert(dir_keys(style, none) =~= Set::empty());
}

/// Trees with the same contents are read in the same directories.
proof fn lemma_same_reached(
    t1: spec_fn(Seq<char>) -> Listing,
    t2: spec_fn(Seq<char>) -> Listing,
    dirs: Set<Seq<char>>,
    a: Seq<Seq<char>>,
    b: Seq<Seq<char>>,
    depth: nat,
)
    requires
        closed_under(t1, dirs),
        forall|d: Seq<char>| #[trigger] dirs.contains(d) ==> same_contents(t1(d), t2(d)),
        forall|i: int| 0 <= i < a.len() ==> dirs.contains(#[trigger] a[i]),
        a.to_multiset() == b.to_multiset(),
    ensures
        reached(t1, a, depth).to_multiset() == reached(t2, b, depth).to_multiset(),
    decreases depth,
{
    broadcast use vstd::seq_lib::group_to_multiset_ensures;

    assert(a.len() == b.len()) by {
        assert(a.to_multiset().len() == a.len());
        assert(b.to_multiset().len() == b.len());
    }
    if a.len() > 0 && depth > 0 {
        let l1 = a.map_values(t1);
        let l2 = b.map_values(t2);
        let f1 = |d: Seq<char>| t1(d).subdirs.to_multiset();
        let f2 = |d: Seq<char>| t2(d).subdirs.to_multiset();
        assert forall|i: int| 0 <= i < a.len() implies f1(#[trigger] a[i]) == f2(a[i]) by {
            assert(dirs.contains(a[i]));
        }
        lemma_bag_permuted(a, b, f1, f2);
        lemma_subdirs_bag(l1);
        lemma_subdirs_bag(l2);
        assert(l1.map_values(|l: Listing| l.subdirs.to_multiset()) =~= a.map_values(f1));
        assert(l2.map_values(|l: Listing| l.subdirs.to_multiset()) =~= b.map_values(f2));
        lemma_subdirs_inside(t1, dirs, a);
        lemma_same_reached(t1, t2, dirs, all_subdirs(l1), all_subdirs(l2), (depth - 1) as nat);
        let r1 = reached(t1, all_subdirs(l1), (depth - 1) as nat);
        let r2 = reached(t2, all_subdirs(l2), (depth - 1) as nat);
        vstd::seq_lib::lemma_multiset_commutative(a, r1);
        vstd::seq_lib::lemma_multiset_commutative(b, r2);
    }
}

/// A scan that ends within some depth is the same within any greater one.
proof fn lemma_deeper(
    tree: spec_fn(Seq<char>) -> Listing,
    todo: Seq<Seq<char>>,
    depth: nat,
    more: nat,
)
    requires
        scan_tree(tree, todo, depth) is Some,
        depth <= more,
    ensures
        scan_tree(tree, todo, more) == scan_tree(tree, todo, depth),
        reached(tree, todo, more) == reached(tree, todo, depth),
    decreases depth,
{
    if todo.len() > 0 {
        lemma_deeper(
            tree,
            all_subdirs(todo.map_values(tree)),
            (depth - 1) as nat,
            (more - 1) as nat,
        );
    }
}

/// Lists with the same items have the same keys among the live ones.
proof fn lemma_same_keys(
    style: PathStyle,
    p: spec_fn(Seq<char>) -> bool,
    a: Seq<Seq<char>>,
    b: Seq<Seq<char>>,
)
    requires
        a.to_multiset() == b.to_multiset(),
    ensures
        dir_keys(style, a.filter(p)).subset_of(dir_keys(style, b.filter(p))),
{
    broadcast use vstd::seq_lib::group_to_multiset_ensures;

    let f = |d: Seq<char>| as_parent(style, d);
    let g = |d: Seq<char>| crate::text::lowercase(d);
    let x = a.filter(p).map_values(f).map_values(g);
    let y = b.filter(p).map_values(f).map_values(g);
    assert forall|k: Seq<char>| x.to_set().contains(k) implies y.to_set().contains(k) by {
        let i = choose|i: int| 0 <= i < x.len() && x[i] == k;
        let d = a.filter(p)[i];
        lemma_filter_member(a, p, i);
        assert(p(d)) by {
            a.lemma_filter_pred(p, i);
        }
        assert(a.contains(d));
        assert(a.to_multiset().count(d) > 0);
        assert(b.contains(d));
        let j = choose|j: int| 0 <= j < b.len() && b[j] == d;
        b.lemma_filter_contains(p, j);
        let l = choose|l: int| 0 <= l < b.filter(p).len() && b.filter(p)[l] == d;
        assert(y[l] == k);
    }
}

/// A whole rescan, from `merge_scan` over its feeding to `finish`: where the
/// snapshot was taken of the old tree, every directory in which the new tree
/// differs is marked, and each step is fed what it asks for, it ends with the
/// records of a full scan of the new tree, except for access times. It says how
/// many directories of the new tree were marked or unknown to the snapshot,
/// which is none where nothing is marked.
pub proof fn law_whole_rescan_equals_full_scan(
    style: PathStyle,
    root: Seq<char>,
    old_tree: spec_fn(Seq<char>) -> Listing,
    new_tree: spec_fn(Seq<char>) -> Listing,
    dirty: Set<Seq<char>>,
    old_scan: Seq<Walk>,
    snapshot: ScanOutcome,
    new_scan: Seq<Walk>,
    full: Seq<Record>,
    rescan: Seq<MergeScan>,
    r: (ScanOutcome, u64),
)
    requires
        is_walk(old_tree, root, old_scan),
        plain_tree(
            style,
            old_tree,
            reached(old_tree, seq![root], (old_scan.len() - 1) as nat),
        ),
        finalized(records(old_scan.last().outcome.records@), records(snapshot.records@)),
        is_walk(new_tree, root, new_scan),
        distinct_paths(records(new_scan.last().outcome.records@)),
        finalized(records(new_scan.last().outcome.records@), full),
        marks_cover(
            style,
            old_tree,
            reached(old_tree, seq![root], (old_scan.len() - 1) as nat),
            new_tree,
            reached(new_tree, seq![root], (new_scan.len() - 1) as nat),
            dirty,
        ),
        is_rescan(style, root, snapshot, dirty, new_tree, rescan),
        rescan.last().ended(r),
    ensures
        records(r.0.records@).map_values(|x: Record| without_access_time(x)) == full.map_values(
            |x: Record| without_access_time(x),
        ),
        r.1 == dir_keys(
            style,
            live_dirs(
                style,
                root,
                records(snapshot.records@),
                dirty,
                reached(new_tree, seq![root], (new_scan.len() - 1) as nat),
            ),
        ).len(),
        dirty == Set::<Seq<char>>::empty() ==> r.1 == 0,
{
    let snap = records(snapshot.records@);
    let k = (old_scan.len() - 1) as nat;
    let n = (new_scan.len() - 1) as nat;
    let l = (rescan.len() - 1) as nat;
    let m = merged_tree(style, root, snap, dirty, new_tree);
    let todo = seq![root];
    law_walk_scans_the_tree(old_tree, root, old_scan);
    law_walk_scans_the_tree(new_tree, root, new_scan);
    lemma_rescan_is_walk(style, root, snapshot, dirty, new_tree, rescan);
    law_walk_scans_the_tree(m, root, walks(rescan));
    let old_found = scan_tree(old_tree, todo, k)->0;
    let new_found = scan_tree(new_tree, todo, n)->0;
    let out = records(r.0.records@);
    let most = if n < l {
        l
    } else {
        n
    };
    lemma_deeper(m, todo, l, most);
    lemma_marked_snapshot_is_accurate(
        style,
        root,
        old_tree,
        new_tree,
        dirty,
        k,
        n,
        old_found,
        snap,
    );
    lemma_reached_is_closed(new_tree, root, n);
    lemma_deeper(new_tree, todo, n, most);
    let dirs = reached(new_tree, todo, n);
    let set = dirs.to_set();
    lemma_accurate_rescan(style, root, snap, dirty, new_tree, set, most, new_found, full, out);
    // What was read.
    let p = |d: Seq<char>| is_live(style, root, snap, dirty, d);
    lemma_read_from(style, root, snapshot, dirty, new_tree, rescan, 0);
    let seen = reached(m, todo, l);
    assert forall|d: Seq<char>| #[trigger] set.contains(d) implies same_contents(
        new_tree(d),
        m(d),
    ) by {}
    assert forall|i: int| 0 <= i < todo.len() implies set.contains(#[trigger] todo[i]) by {}
    lemma_same_reached(new_tree, m, set, todo, todo, most);
    lemma_same_keys(style, p, seen, dirs);
    lemma_same_keys(style, p, dirs, seen);
    assert(dir_keys(style, seen.filter(p)) =~= dir_keys(style, dirs.filter(p)));
    assert(rescan.last().live() =~= dir_keys(style, seen.filter(p)));
    if dirty == Set::<Seq<char>>::empty() {
        law_without_marks_nothing_is_read(style, root, snap, Seq::empty());
        lemma_reached_is_known(style, root, snap, new_tree, todo, l);
        assert forall|i: int| 0 <= i < seen.len() implies !p(#[trigger] seen[i]) by {}
        lemma_filter_none(seen, p);
        assert(seen.filter(p) =~= Seq::empty());
        lemma_no_keys(style);
    }
}

/// A whole rescan without a mark reads nothing and gives the snapshot back,
/// record by record, whatever has changed on the disk since.
pub proof fn law_whole_unmarked_rescan_serves_the_snapshot(
    style: PathStyle,
    root: Seq<char>,
    old_tree: spec_fn(Seq<char>) -> Listing,
    new_tree: spec_fn(Seq<char>) -> Listing,
    old_scan: Seq<Walk>,
    snapshot: ScanOutcome,
    rescan: Seq<MergeScan>,
    r: (ScanOutcome, u64),
)
    requires
        is_walk(old_tree, root, old_scan),
        plain_tree(
            style,
            old_tree,
            reached(old_tree, seq![root], (old_scan.len() - 1) as nat),
        ),
        distinct_paths(records(old_scan.last().outcome.records@)),
        finalized(records(old_scan.last().outcome.records@), records(snapshot.records@)),
        is_rescan(style, root, snapshot, Set::empty(), new_tree, rescan),
        rescan.last().ended(r),
    ensures
        records(r.0.records@) == records(snapshot.records@),
        r.1 == 0,
{
    let none = Set::<Seq<char>>::empty();
    let snap = records(snapshot.records@);
    let k = (old_scan.len() - 1) as nat;
    let l = (rescan.len() - 1) as nat;
    let m = merged_tree(style, root, snap, none, new_tree);
    let todo = seq![root];
    law_walk_scans_the_tree(old_tree, root, old_scan);
    lemma_rescan_is_walk(style, root, snapshot, none, new_tree, rescan);
    law_walk_scans_the_tree(m, root, walks(rescan));
    let most = if k < l {
        l
    } else {
        k
    };
    lemma_deeper(old_tree, todo, k, most);
    lemma_deeper(m, todo, l, most);
    law_unmarked_rescan_serves_the_snapshot(
        style,
        root,
        old_tree,
        new_tree,
        most,
        scan_tree(old_tree, todo, most)->0,
        snap,
        records(r.0.records@),
    );
    let p = |d: Seq<char>| is_live(style, root, snap, none, d);
    let seen = reached(m, todo, l);
    lemma_read_from(style, root, snapshot, none, new_tree, rescan, 0);
    law_without_marks_nothing_is_read(style, root, snap, Seq::empty());
    lemma_reached_is_known(style, root, snap, new_tree, todo, l);
    assert forall|i: int| 0 <= i < seen.len() implies !p(#[trigger] seen[i]) by {}
    lemma_filter_none(seen, p);
    assert(seen.filter(p) =~= Seq::empty());
    lemma_no_keys(style);
    assert(rescan.last().live() =~= none);
}

} // verus!
