//! Differential rescan: rebuild a full scan, re-reading only the directories
//! that changed and serving every other directory from a snapshot.
use crate::error::CoreError;
use crate::index::{as_ints, lemma_positions, lemma_positions_filter, positions, Index};
use crate::lists::{lemma_filter_ends, lemma_filter_take};
use crate::paths::{as_parent, as_parent_of, opt_view, parent, parent_of, PathStyle};
use crate::scanner::{
    build_globset, check_root, exclude_set, finalize, finalized, listings, refused_patterns,
    DirListing, Listing, ScanOptions, ScanOutcome, Walk,
};
use crate::text::{copy, lowercase, to_lowercase, views};
use crate::types::{records, skips, FileRecord, Record, Skipped, SkippedPath};
use vstd::hash_set::StringHashSet;
use vstd::prelude::*;

verus! {

// ------------------------------------------------------------------- model --
/// The lowercased parent of a path.
#[verifier::opaque]
pub open spec fn lower_parent(style: PathStyle, path: Seq<char>) -> Option<Seq<char>> {
    match parent(style, path) {
        Some(p) => Some(lowercase(p)),
        None => None,
    }
}

/// What directories are told apart by: how the lowercased parent of their
/// entries is spelled. Trailing separators do not count.
#[verifier::opaque]
pub open spec fn dir_key(style: PathStyle, dir: Seq<char>) -> Seq<char> {
    lowercase(as_parent(style, dir))
}

/// Records directly in the directory with this key.
pub open spec fn child_of(style: PathStyle, key: Seq<char>) -> spec_fn(Record) -> bool {
    |r: Record| lower_parent(style, r.path) == Some(key)
}

pub open spec fn is_dir_record() -> spec_fn(Record) -> bool {
    |r: Record| r.is_dir
}

/// The paths of a list of records.
pub open spec fn record_paths(v: Seq<Record>) -> Seq<Seq<char>> {
    v.map_values(|r: Record| r.path)
}

/// What the snapshot says of a directory.
pub open spec fn cached_listing(style: PathStyle, snap: Seq<Record>, dir: Seq<char>) -> Listing {
    let children = snap.filter(child_of(style, dir_key(style, dir)));
    Listing {
        records: children,
        skipped: Seq::empty(),
        subdirs: record_paths(children.filter(is_dir_record())),
    }
}

/// The snapshot knows a directory with this key.
pub open spec fn known(style: PathStyle, root: Seq<char>, snap: Seq<Record>, key: Seq<char>) -> bool {
    key == dir_key(style, root) || exists|i: int|
        0 <= i < snap.len() && (#[trigger] snap[i]).is_dir && dir_key(style, snap[i].path) == key
}

/// A directory was marked as changed, in its own spelling or in that of its
/// entries.
pub open spec fn is_marked(style: PathStyle, dirty: Set<Seq<char>>, dir: Seq<char>) -> bool {
    dirty.contains(lowercase(dir)) || dirty.contains(dir_key(style, dir))
}

/// A directory is read live when it was marked dirty or the snapshot has never
/// seen it.
pub open spec fn is_live(
    style: PathStyle,
    root: Seq<char>,
    snap: Seq<Record>,
    dirty: Set<Seq<char>>,
    dir: Seq<char>,
) -> bool {
    is_marked(style, dirty, dir) || !known(style, root, snap, dir_key(style, dir))
}

/// The tree a rescan sees: the real one where it is read live, the snapshot
/// elsewhere.
pub open spec fn merged_tree(
    style: PathStyle,
    root: Seq<char>,
    snap: Seq<Record>,
    dirty: Set<Seq<char>>,
    tree: spec_fn(Seq<char>) -> Listing,
) -> spec_fn(Seq<char>) -> Listing {
    |d: Seq<char>|
        if is_live(style, root, snap, dirty, d) {
            tree(d)
        } else {
            cached_listing(style, snap, d)
        }
}

/// The live ones among `todo`.
pub open spec fn live_dirs(
    style: PathStyle,
    root: Seq<char>,
    snap: Seq<Record>,
    dirty: Set<Seq<char>>,
    todo: Seq<Seq<char>>,
) -> Seq<Seq<char>> {
    todo.filter(|d: Seq<char>| is_live(style, root, snap, dirty, d))
}

/// The listings of all of `todo`, where `read` holds those of the live ones.
pub open spec fn filled(
    style: PathStyle,
    root: Seq<char>,
    snap: Seq<Record>,
    dirty: Set<Seq<char>>,
    todo: Seq<Seq<char>>,
    read: Seq<Listing>,
) -> Seq<Listing>
    decreases todo.len(),
{
    if todo.len() == 0 {
        Seq::empty()
    } else if is_live(style, root, snap, dirty, todo.last()) {
        filled(style, root, snap, dirty, todo.drop_last(), read.drop_last()).push(read.last())
    } else {
        filled(style, root, snap, dirty, todo.drop_last(), read).push(
            cached_listing(style, snap, todo.last()),
        )
    }
}

/// A note is carried over from the snapshot unless its path or its directory
/// was read again.
pub open spec fn not_revisited(style: PathStyle, live: Set<Seq<char>>) -> spec_fn(Skipped) -> bool {
    |s: Skipped|
        !live.contains(dir_key(style, s.path)) && !(lower_parent(style, s.path) matches Some(p)
            && live.contains(p))
}

/// The lowercased paths of a list of directories.
pub open spec fn lowered(dirs: Seq<Seq<char>>) -> Set<Seq<char>> {
    dirs.map_values(|d: Seq<char>| lowercase(d)).to_set()
}

/// One more directory adds its name in lower case.
pub proof fn lemma_lowered_take(dirs: Seq<Seq<char>>, k: int)
    requires
        0 <= k < dirs.len(),
    ensures
        lowered(dirs.take(k + 1)) == lowered(dirs.take(k)).insert(lowercase(dirs[k])),
{
    let a = dirs.take(k).map_values(|d: Seq<char>| lowercase(d));
    let b = dirs.take(k + 1).map_values(|d: Seq<char>| lowercase(d));
    let low = lowercase(dirs[k]);
    assert(b =~= a.push(low));
    assert forall|x: Seq<char>| b.to_set().contains(x) <==> a.to_set().insert(low).contains(x) by {
        if b.contains(x) {
            let j = choose|j: int| 0 <= j < b.len() && b[j] == x;
            if j < a.len() {
                assert(a[j] == x);
            }
        }
        if a.contains(x) {
            let j = choose|j: int| 0 <= j < a.len() && a[j] == x;
            assert(b[j] == x);
        }
        assert(b[a.len() as int] == low);
    }
    assert(b.to_set() =~= a.to_set().insert(low));
}

/// No directory, no name.
pub proof fn lemma_lowered_none(dirs: Seq<Seq<char>>)
    ensures
        lowered(dirs.take(0)) == Set::<Seq<char>>::empty(),
{
    assert(dirs.take(0).map_values(|d: Seq<char>| lowercase(d)) =~= Seq::empty());
    assert(lowered(dirs.take(0)) =~= Set::empty());
}

/// The keys of a list of directories.
pub open spec fn dir_keys(style: PathStyle, dirs: Seq<Seq<char>>) -> Set<Seq<char>> {
    lowered(dirs.map_values(|d: Seq<char>| as_parent(style, d)))
}

// --------------------------------------------------------------- the state --
/// A differential rescan under way.
pub struct MergeScan {
    style: PathStyle,
    root: String,
    snapshot: ScanOutcome,
    children: Index,
    dirs: StringHashSet,
    dirty: StringHashSet,
    walk: Walk,
    live: StringHashSet,
}

/// The parent key of each record.
pub open spec fn parent_keys(style: PathStyle, snap: Seq<Record>) -> Seq<Option<Seq<char>>> {
    snap.map_values(|r: Record| lower_parent(style, r.path))
}

fn key_of(style: PathStyle, dir: &str) -> (r: String)
    ensures
        r@ == dir_key(style, dir@),
{
    reveal(dir_key);
    let spelled: String = as_parent_of(style, dir);
    to_lowercase(spelled.as_str())
}

fn lower_parent_of(style: PathStyle, path: &str) -> (r: Option<String>)
    ensures
        opt_view(r) == lower_parent(style, path@),
{
    reveal(lower_parent);
    match parent_of(style, path) {
        Some(p) => Some(to_lowercase(p.as_str())),
        None => None,
    }
}

impl MergeScan {
    pub closed spec fn style(&self) -> PathStyle {
        self.style
    }

    pub closed spec fn root(&self) -> Seq<char> {
        self.root@
    }

    /// The records of the snapshot.
    pub closed spec fn snap(&self) -> Seq<Record> {
        records(self.snapshot.records@)
    }

    /// The notes of the snapshot.
    pub closed spec fn snap_skipped(&self) -> Seq<Skipped> {
        skips(self.snapshot.skipped@)
    }

    /// The lowercased paths of the changed directories.
    pub closed spec fn dirty(&self) -> Set<Seq<char>> {
        self.dirty@
    }

    /// The walk so far.
    pub closed spec fn walk(&self) -> Walk {
        self.walk
    }

    /// The keys of the directories read live so far.
    pub closed spec fn live(&self) -> Set<Seq<char>> {
        self.live@
    }

    pub closed spec fn wf(&self) -> bool {
        &&& self.children.wf()
        &&& self.children.keys() == parent_keys(self.style, records(self.snapshot.records@))
        &&& forall|l: Seq<char>| #[trigger]
            self.dirs@.contains(l) <==> known(
                self.style,
                self.root@,
                records(self.snapshot.records@),
                l,
            )
    }

    /// What does not change during a rescan.
    pub open spec fn same_request(&self, other: Self) -> bool {
        &&& self.style() == other.style()
        &&& self.root() == other.root()
        &&& self.snap() == other.snap()
        &&& self.snap_skipped() == other.snap_skipped()
        &&& self.dirty() == other.dirty()
    }

    /// The directories still to visit.
    pub open spec fn todo(&self) -> Seq<Seq<char>> {
        views(self.walk().todo@)
    }

    /// The ones among them that are read live.
    pub open spec fn live_todo(&self) -> Seq<Seq<char>> {
        live_dirs(self.style(), self.root(), self.snap(), self.dirty(), self.todo())
    }

    /// A rescan that was just started.
    pub open spec fn fresh(
        &self,
        style: PathStyle,
        root: Seq<char>,
        snapshot: ScanOutcome,
        dirty: Set<Seq<char>>,
    ) -> bool {
        &&& self.style() == style
        &&& self.root() == root
        &&& self.snap() == records(snapshot.records@)
        &&& self.snap_skipped() == skips(snapshot.skipped@)
        &&& self.dirty() == dirty
        &&& self.todo() == seq![root]
        &&& self.walk().outcome.records@.len() == 0
        &&& self.walk().outcome.skipped@.len() == 0
        &&& self.live() == Set::<Seq<char>>::empty()
    }

    /// `after` is this rescan with the listings of its live directories taken
    /// in, and those of the others served from the snapshot.
    pub open spec fn fed(&self, read: Seq<Listing>, after: Self) -> bool {
        &&& after.same_request(*self)
        &&& self.walk().advanced(
            filled(self.style(), self.root(), self.snap(), self.dirty(), self.todo(), read),
            after.walk(),
        )
        &&& after.live() == self.live().union(dir_keys(self.style(), self.live_todo()))
    }

    /// `r` is what this rescan ends with: the records in order and numbered,
    /// the notes that still hold, and how many directories were read live.
    pub open spec fn ended(&self, r: (ScanOutcome, u64)) -> bool {
        &&& finalized(records(self.walk().outcome.records@), records(r.0.records@))
        &&& skips(r.0.skipped@) == skips(self.walk().outcome.skipped@)
            + self.snap_skipped().filter(not_revisited(self.style(), self.live()))
        &&& r.1 == self.live().len()
    }

    fn is_live_dir(&self, dir: &str) -> (r: bool)
        requires
            self.wf(),
        ensures
            r == is_live(self.style(), self.root(), self.snap(), self.dirty(), dir@),
    {
        let lower: String = to_lowercase(dir);
        let key: String = key_of(self.style, dir);
        self.dirty.contains(lower.as_str()) || self.dirty.contains(key.as_str())
            || !self.dirs.contains(key.as_str())
    }

    /// What the snapshot says of a directory.
    fn cached(&self, dir: &str) -> (r: DirListing)
        requires
            self.wf(),
        ensures
            r@ == cached_listing(self.style(), self.snap(), dir@),
    {
        let key: String = key_of(self.style, dir);
        let at: Vec<usize> = self.children.find(key.as_str());
        let ghost snap = self.snap();
        let ghost keys = self.children.keys();
        let ghost p = child_of(self.style, key@);
        let ghost q = is_dir_record();
        let ghost children = snap.filter(p);
        proof {
            assert forall|i: int| 0 <= i < snap.len() implies p(#[trigger] snap[i]) == (keys[i]
                == Some(key@)) by {
                assert(keys[i] == lower_parent(self.style, snap[i].path));
            }
            lemma_positions_filter(snap, keys, key@, p);
            lemma_positions(keys, key@);
            lemma_filter_ends(children, q);
            assert forall|k: int| 0 <= k < at@.len() implies (#[trigger] at@[k]) < snap.len()
                && children[k] == snap[at@[k] as int] by {
                assert(as_ints(at@)[k] == at@[k]);
                assert(positions(keys, key@)[k] == at@[k]);
            }
        }
        let mut recs: Vec<FileRecord> = Vec::new();
        let mut subdirs: Vec<String> = Vec::new();
        let mut i: usize = 0;
        assert(records(recs@) =~= children.take(0));
        assert(views(subdirs@) =~= record_paths(children.take(0).filter(q)));
        while i < at.len()
            invariant
                self.wf(),
                snap == self.snap(),
                q == is_dir_record(),
                i <= at@.len() == children.len(),
                forall|k: int| 0 <= k < at@.len() ==> (#[trigger] at@[k]) < snap.len(),
                forall|k: int| 0 <= k < at@.len() ==> children[k] == snap[#[trigger] at@[k] as int],
                records(recs@) == children.take(i as int),
                views(subdirs@) == record_paths(children.take(i as int).filter(q)),
            decreases at@.len() - i,
        {
            let r: &FileRecord = &self.snapshot.records[at[i]];
            let ghost recs0 = recs@;
            let ghost subs0 = subdirs@;
            proof {
                assert(r@ == children[i as int]);
                assert(children.take(i + 1) =~= children.take(i as int).push(r@));
                lemma_filter_take(children, q, i as int);
            }
            recs.push(r.clone());
            assert(records(recs@) =~= records(recs0).push(r@));
            if r.is_dir {
                subdirs.push(r.path.clone());
                assert(views(subdirs@) =~= views(subs0).push(r.path@));
                assert(record_paths(children.take(i + 1).filter(q)) =~= record_paths(
                    children.take(i as int).filter(q),
                ).push(r.path@));
            }
            i += 1;
        }
        let out: DirListing = DirListing { records: recs, skipped: Vec::new(), subdirs };
        proof {
            assert(children.take(i as int) =~= children);
            assert(out@ =~= cached_listing(self.style(), snap, dir@));
        }
        out
    }

    /// Whether no directory is left to visit.
    pub fn is_done(&self) -> (r: bool)
        requires
            self.wf(),
        ensures
            r == (self.todo().len() == 0),
    {
        self.walk.todo.len() == 0
    }

    /// The directories whose listings the next step needs, in order.
    pub fn to_read(&self) -> (r: Vec<String>)
        requires
            self.wf(),
        ensures
            views(r@) == self.live_todo(),
    {
        let ghost todo = self.todo();
        let ghost p = |d: Seq<char>|
            is_live(self.style(), self.root(), self.snap(), self.dirty(), d);
        let mut out: Vec<String> = Vec::new();
        let mut i: usize = 0;
        proof {
            lemma_filter_ends(todo, p);
            assert(views(out@) =~= todo.take(0).filter(p));
        }
        while i < self.walk.todo.len()
            invariant
                self.wf(),
                todo == self.todo(),
                p == (|d: Seq<char>|
            is_live(self.style(), self.root(), self.snap(), self.dirty(), d)),
                i <= self.walk.todo@.len() == todo.len(),
                views(out@) == todo.take(i as int).filter(p),
            decreases self.walk.todo@.len() - i,
        {
            let ghost out0 = out@;
            let dir: &String = &self.walk.todo[i];
            proof {
                lemma_filter_take(todo, p, i as int);
                assert(todo[i as int] == dir@);
            }
            if self.is_live_dir(dir.as_str()) {
                out.push(dir.clone());
                assert(views(out@) =~= views(out0).push(dir@));
            }
            i += 1;
        }
        out
    }

    /// Takes in the listings of the directories that `to_read` asked for, in
    /// their order, and serves the others from the snapshot.
    pub fn feed(&mut self, read: Vec<DirListing>)
        requires
            old(self).wf(),
            read@.len() == old(self).live_todo().len(),
        ensures
            final(self).wf(),
            old(self).fed(listings(read@), *final(self)),
    {
        let ghost todo = self.todo();
        let ghost (style, root, snap, dirty) = (
            self.style(),
            self.root(),
            self.snap(),
            self.dirty(),
        );
        let ghost p = |d: Seq<char>| is_live(style, root, snap, dirty, d);
        let ghost rv = listings(read@);
        let ghost live0 = self.live@;
        let mut rest: Vec<DirListing> = read;
        let ghost all = rest@;
        // From the last directory to the first, so the live listings can be
        // taken off the end.
        let mut turned: Vec<DirListing> = Vec::new();
        let n: usize = self.walk.todo.len();
        let mut i: usize = n;
        proof {
            lemma_filter_ends(todo, p);
            assert(todo.take(n as int) =~= todo);
            assert(all.take(all.len() as int) =~= all);
            assert(rv.take(all.len() as int) =~= rv);
        }
        let ghost goal = filled(style, root, snap, dirty, todo, rv);
        assert(goal =~= goal + Seq::<Listing>::empty());
        while i > 0
            invariant
                self.wf(),
                self.style() == style,
                self.root() == root,
                self.snap() == snap,
                self.dirty() == dirty,
                self.todo() == todo,
                self.live@ == live0,
                self.walk == old(self).walk,
                self.snap_skipped() == old(self).snap_skipped(),
                i <= n == todo.len() == self.walk.todo@.len(),
                p == (|d: Seq<char>| is_live(style, root, snap, dirty, d)),
                rv == listings(all),
                rest@ == all.take(rest@.len() as int),
                rest@.len() <= all.len(),
                rest@.len() == todo.take(i as int).filter(p).len(),
                turned@.len() == n - i,
                goal.len() == filled(
                    style,
                    root,
                    snap,
                    dirty,
                    todo.take(i as int),
                    rv.take(rest@.len() as int),
                ).len() + (n - i),
                forall|k: int|
                    0 <= k < n - i ==> (#[trigger] turned@[k])@ == goal[goal.len() - 1 - k],
                forall|k: int|
                    0 <= k < goal.len() - (n - i) ==> goal[k] == #[trigger] filled(
                        style,
                        root,
                        snap,
                        dirty,
                        todo.take(i as int),
                        rv.take(rest@.len() as int),
                    )[k],
            decreases i,
        {
            let ghost rl = rest@.len() as int;
            let ghost cur = filled(style, root, snap, dirty, todo.take(i as int), rv.take(rl));
            i -= 1;
            let dir: &String = &self.walk.todo[i];
            proof {
                lemma_filter_take(todo, p, i as int);
                assert(todo[i as int] == dir@);
                assert(todo.take(i + 1).drop_last() =~= todo.take(i as int));
                assert(todo.take(i + 1).last() == dir@);
            }
            if self.is_live_dir(dir.as_str()) {
                match rest.pop() {
                    Some(l) => {
                        proof {
                            assert(all.take(rl).drop_last() =~= all.take(rl - 1));
                            assert(rv.take(rl).drop_last() =~= rv.take(rl - 1));
                            assert(l == all[rl - 1]);
                            assert(rv.take(rl).last() == l@);
                            assert(cur.last() == l@);
                            assert(goal[goal.len() - (n - i - 1) - 1] == cur[cur.len() - 1]);
                        }
                        turned.push(l);
                    },
                    None => {},
                }
            } else {
                let l: DirListing = self.cached(dir.as_str());
                proof {
                    assert(cur.last() == l@);
                    assert(goal[goal.len() - (n - i - 1) - 1] == cur[cur.len() - 1]);
                }
                turned.push(l);
            }
            proof {
                let next = filled(
                    style,
                    root,
                    snap,
                    dirty,
                    todo.take(i as int),
                    rv.take(rest@.len() as int),
                );
                assert(cur == next.push(turned@.last()@));
                assert forall|k: int| 0 <= k < goal.len() - (n - i) implies goal[k]
                    == #[trigger] next[k] by {
                    assert(cur[k] == next[k]);
                }
            }
        }
        let ghost t0 = turned@;
        let mut full: Vec<DirListing> = Vec::new();
        while turned.len() > 0
            invariant
                t0.len() == n == goal.len(),
                turned@ == t0.take(turned@.len() as int),
                turned@.len() + full@.len() == n,
                forall|k: int| 0 <= k < n ==> (#[trigger] t0[k])@ == goal[n - 1 - k],
                forall|k: int| 0 <= k < full@.len() ==> (#[trigger] full@[k])@ == goal[k],
            decreases turned@.len(),
        {
            let ghost m = turned@.len() as int;
            match turned.pop() {
                Some(l) => {
                    assert(t0.take(m).drop_last() =~= t0.take(m - 1));
                    assert(l == t0[m - 1]);
                    full.push(l);
                },
                None => {},
            }
        }
        assert(listings(full@) =~= goal);
        let names: Vec<String> = self.to_read();
        let ghost lv = views(names@).map_values(|d: Seq<char>| as_parent(style, d));
        let mut k: usize = 0;
        proof {
            lemma_lowered_none(lv);
        }
        while k < names.len()
            invariant
                k <= names@.len(),
                lv == views(names@).map_values(|d: Seq<char>| as_parent(style, d)),
                self.wf(),
                self.style() == style,
                self.root() == root,
                self.snap() == snap,
                self.dirty() == dirty,
                self.walk == old(self).walk,
                self.snap_skipped() == old(self).snap_skipped(),
                self.live@ == live0.union(lowered(lv.take(k as int))),
            decreases names@.len() - k,
        {
            let key: String = key_of(self.style, names[k].as_str());
            self.live.insert(key);
            k += 1;
            proof {
                reveal(dir_key);
                assert(lv[k - 1] == as_parent(style, names@[k - 1]@));
                lemma_lowered_take(lv, k - 1);
                assert(self.live@ =~= live0.union(lowered(lv.take(k as int))));
            }
        }
        assert(lv.take(k as int) =~= lv);
        self.walk.feed(full);
    }

    /// Ends the rescan: notes that still hold are carried over, records are put
    /// in order and numbered. Also says how many directories were read live.
    pub fn finish(self) -> (r: (ScanOutcome, u64))
        requires
            self.wf(),
        ensures
            self.ended(r),
    {
        let live_count: u64 = self.live.len() as u64;
        let ghost old_notes = self.snap_skipped();
        let ghost p = not_revisited(self.style(), self.live());
        let style: PathStyle = self.style;
        let live: StringHashSet = self.live;
        let snapshot: ScanOutcome = self.snapshot;
        let mut outcome: ScanOutcome = self.walk.outcome;
        let ghost first = skips(outcome.skipped@);
        let ghost recs = outcome.records@;
        let mut i: usize = 0;
        proof {
            lemma_filter_ends(old_notes, p);
            assert(first + old_notes.take(0).filter(p) =~= first);
        }
        while i < snapshot.skipped.len()
            invariant
                i <= snapshot.skipped@.len() == old_notes.len(),
                old_notes == skips(snapshot.skipped@),
                p == not_revisited(style, live@),
                outcome.records@ == recs,
                skips(outcome.skipped@) == first + old_notes.take(i as int).filter(p),
            decreases snapshot.skipped@.len() - i,
        {
            let s: &SkippedPath = &snapshot.skipped[i];
            let key: String = key_of(style, s.path.as_str());
            let in_dir: bool = match lower_parent_of(style, s.path.as_str()) {
                Some(up) => live.contains(up.as_str()),
                None => false,
            };
            let ghost before = outcome.skipped@;
            proof {
                lemma_filter_take(old_notes, p, i as int);
                assert(old_notes[i as int] == s@);
            }
            if !live.contains(key.as_str()) && !in_dir {
                outcome.skipped.push(s.clone());
                assert(skips(outcome.skipped@) =~= skips(before).push(s@));
                assert(skips(before).push(s@) =~= first + old_notes.take(i as int).filter(p).push(
                    s@,
                ));
            }
            i += 1;
        }
        (finalize(outcome), live_count)
    }
}

/// A differential rescan of `root` at its start.
fn begin(style: PathStyle, root: &str, snapshot: ScanOutcome, dirty_lower: &Vec<String>) -> (r:
    MergeScan)
    requires
        snapshot.records@.len() < usize::MAX,
    ensures
        r.wf(),
        r.fresh(style, root@, snapshot, views(dirty_lower@).to_set()),
{
    let ghost snap = records(snapshot.records@);
    let ghost keys = parent_keys(style, snap);
    let mut children: Index = Index::new();
    let mut dirs: StringHashSet = StringHashSet::new();
    dirs.insert(key_of(style, root));
    let mut i: usize = 0;
    assert(keys.take(0) =~= Seq::empty());
    while i < snapshot.records.len()
        invariant
            i <= snapshot.records@.len() < usize::MAX,
            snap == records(snapshot.records@),
            keys == parent_keys(style, snap),
            children.wf(),
            children.keys() == keys.take(i as int),
            forall|l: Seq<char>| #[trigger]
                dirs@.contains(l) <==> known(style, root@, snap.take(i as int), l),
        decreases snapshot.records@.len() - i,
    {
        let r: &FileRecord = &snapshot.records[i];
        assert(snap[i as int] == r@);
        let ghost dirs0 = dirs@;
        if r.is_dir {
            dirs.insert(key_of(style, r.path.as_str()));
        }
        match lower_parent_of(style, r.path.as_str()) {
            Some(p) => {
                children.add(Some(p.as_str()));
            },
            None => {
                children.add(None);
            },
        }
        proof {
            let a = snap.take(i as int);
            let b = snap.take(i + 1);
            assert(keys.take(i + 1) =~= keys.take(i as int).push(keys[i as int]));
            assert forall|l: Seq<char>| #[trigger] dirs@.contains(l) <==> known(style, root@, b, l) by {
                assert(dirs0.contains(l) <==> known(style, root@, a, l));
                if known(style, root@, a, l) && l != dir_key(style, root@) {
                    let j = choose|j: int|
                        0 <= j < a.len() && (#[trigger] a[j]).is_dir && dir_key(style, a[j].path)
                            == l;
                    assert(b[j] == a[j]);
                }
                if known(style, root@, b, l) && l != dir_key(style, root@) {
                    let j = choose|j: int|
                        0 <= j < b.len() && (#[trigger] b[j]).is_dir && dir_key(style, b[j].path)
                            == l;
                    if j < i {
                        assert(a[j] == b[j]);
                    }
                }
                assert(b[i as int] == r@);
            }
        }
        i += 1;
    }
    assert(keys.take(i as int) =~= keys);
    assert(snap.take(i as int) =~= snap);
    let mut dirty: StringHashSet = StringHashSet::new();
    let ghost dv = views(dirty_lower@);
    let mut k: usize = 0;
    assert(dv.take(0).to_set() =~= Set::empty());
    while k < dirty_lower.len()
        invariant
            k <= dirty_lower@.len(),
            dv == views(dirty_lower@),
            dirty@ == dv.take(k as int).to_set(),
        decreases dirty_lower@.len() - k,
    {
        dirty.insert(dirty_lower[k].clone());
        k += 1;
        proof {
            let a = dv.take(k - 1);
            let b = dv.take(k as int);
            assert(b =~= a.push(dv[k - 1]));
            assert forall|x: Seq<char>| b.to_set().contains(x) <==> a.to_set().insert(
                dv[k - 1],
            ).contains(x) by {
                if a.contains(x) {
                    let j = choose|j: int| 0 <= j < a.len() && a[j] == x;
                    assert(b[j] == x);
                }
                if b.contains(x) {
                    let j = choose|j: int| 0 <= j < b.len() && b[j] == x;
                    if j < a.len() {
                        assert(a[j] == x);
                    }
                }
                assert(b[k - 1] == dv[k - 1]);
            }
            assert(b.to_set() =~= a.to_set().insert(dv[k - 1]));
        }
    }
    assert(dv.take(k as int) =~= dv);
    MergeScan {
        style,
        root: copy(root),
        snapshot,
        children,
        dirs,
        dirty,
        walk: Walk::new(root),
        live: StringHashSet::new(),
    }
}

/// Starts a differential rescan of `root`: only the directories in
/// `dirty_lower` (lowercased full paths) and those the snapshot does not know
/// are read again. Comes with the exclude set to hand to `enumerate_dir`. The
/// root is looked at before the patterns.
pub fn merge_scan(
    style: PathStyle,
    root: &str,
    exists: bool,
    opts: &ScanOptions,
    snapshot: ScanOutcome,
    dirty_lower: &Vec<String>,
) -> (r: Result<(MergeScan, Option<globset::GlobSet>), CoreError>)
    requires
        snapshot.records@.len() < usize::MAX,
    ensures
        match r {
            Ok((scan, excludes)) => {
                &&& exists
                &&& scan.wf()
                &&& scan.fresh(style, root@, snapshot, views(dirty_lower@).to_set())
                &&& exclude_set(opts.excludes@, excludes)
            },
            Err(e) => if exists {
                refused_patterns(views(opts.excludes@), e)
            } else {
                e matches CoreError::InvalidRoot(p) && p@ == root@
            },
        },
{
    match check_root(root, exists) {
        Ok(_) => {},
        Err(e) => return Err(e),
    }
    match build_globset(&opts.excludes) {
        Ok(excludes) => Ok((begin(style, root, snapshot, dirty_lower), excludes)),
        Err(e) => Err(e),
    }
}

} // verus!
