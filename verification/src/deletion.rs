//! Carrying deletions out and taking them back.
//!
//! The caller moves files to the Recycle Bin, deletes or restores them, and
//! reports what came of it; the functions here decide what is tried, what is
//! written down and what is told to the user.
use crate::error::CoreError;
use crate::lists::{lemma_filter_ends, lemma_filter_take, lemma_sum_push, sum};
use crate::safety::{actions, Action, ActionManifest, ActionView, Disposition};
use crate::text::{copy, lowercase, to_lowercase};
use crate::types::Platform;
use vstd::hash_map::StringHashMap;
use vstd::hash_set::StringHashSet;
use vstd::prelude::*;

verus! {

#[derive(Debug)]
pub struct ApplyOutcome {
    pub deleted: usize,
    pub bytes: u64,
    /// Path and reason.
    pub failed: Vec<(String, String)>,
}

/// The views of a list of string pairs.
pub open spec fn pairs(v: Seq<(String, String)>) -> Seq<(Seq<char>, Seq<char>)> {
    v.map_values(|p: (String, String)| (p.0@, p.1@))
}

/// Files per shell transaction. Each one is a full shell operation (~50-200 ms
/// under corporate endpoint protection), so recycling one file at a time turns
/// a 27k-file clean into tens of minutes.
pub const RECYCLE_CHUNK: usize = 500;

/// The end of the chunk that starts at `from`.
pub open spec fn chunk_stop(from: int, total: int) -> int {
    if total - from < RECYCLE_CHUNK {
        total
    } else {
        from + RECYCLE_CHUNK
    }
}

/// Where the chunk that starts at `from` ends.
pub fn chunk_end(from: usize, total: usize) -> (r: usize)
    requires
        from <= total,
    ensures
        r == chunk_stop(from as int, total as int),
        r == if total - from < RECYCLE_CHUNK {
            total as int
        } else {
            from + RECYCLE_CHUNK
        },
{
    if total - from < RECYCLE_CHUNK {
        total
    } else {
        from + RECYCLE_CHUNK
    }
}

// ----------------------------------------------------------------- recycle --
/// One file of a recycle request and what became of it.
pub struct RecycleItem {
    /// As requested.
    pub path: String,
    /// Absolute, so the manifest matches the Recycle Bin's records.
    pub abs: String,
    pub size: u64,
    /// It existed before the batch.
    pub existed: bool,
    /// It was gone after the batch.
    pub gone: bool,
    /// Why recycling it alone failed, where that was tried and failed.
    pub retry_error: Option<String>,
}

/// A chunk of files that went through one shell transaction.
pub struct RecycleChunk {
    pub items: Vec<RecycleItem>,
    pub batch_ok: bool,
}

/// A file that is still there after a failed batch is tried alone.
pub open spec fn wants_retry(batch_ok: bool, item: RecycleItem) -> bool {
    item.existed && !batch_ok && !item.gone
}

/// Whether a file has to be tried alone after its batch.
pub fn needs_retry(batch_ok: bool, item: &RecycleItem) -> (r: bool)
    ensures
        r == wants_retry(batch_ok, *item),
{
    item.existed && !batch_ok && !item.gone
}

/// The file is in the Recycle Bin now.
pub open spec fn recycled(batch_ok: bool) -> spec_fn(RecycleItem) -> bool {
    |i: RecycleItem| i.existed && (!wants_retry(batch_ok, i) || i.retry_error is None)
}

/// The file was there and could not be recycled.
pub open spec fn refused(batch_ok: bool) -> spec_fn(RecycleItem) -> bool {
    |i: RecycleItem| wants_retry(batch_ok, i) && i.retry_error is Some
}

/// The file was not there to begin with.
pub open spec fn missing() -> spec_fn(RecycleItem) -> bool {
    |i: RecycleItem| !i.existed
}

pub open spec fn recycle_action(now_unix: i64) -> spec_fn(RecycleItem) -> ActionView {
    |i: RecycleItem|
        ActionView {
            from: i.abs@,
            disposition: Disposition::RecycleBin,
            size: i.size,
            at_unix: now_unix,
        }
}

pub open spec fn missing_note() -> spec_fn(RecycleItem) -> (Seq<char>, Seq<char>) {
    |i: RecycleItem| (i.path@, "file no longer exists"@)
}

pub open spec fn refused_note() -> spec_fn(RecycleItem) -> (Seq<char>, Seq<char>) {
    |i: RecycleItem| (i.path@, i.retry_error->0@)
}

pub open spec fn item_size() -> spec_fn(RecycleItem) -> nat {
    |i: RecycleItem| i.size as nat
}

/// The recycled files of one chunk.
pub open spec fn chunk_recycled(c: RecycleChunk) -> Seq<RecycleItem> {
    c.items@.filter(recycled(c.batch_ok))
}

/// The notes on one chunk: first the missing files, then the refused ones.
pub open spec fn chunk_failed(c: RecycleChunk) -> Seq<(Seq<char>, Seq<char>)> {
    c.items@.filter(missing()).map_values(missing_note()) + c.items@.filter(
        refused(c.batch_ok),
    ).map_values(refused_note())
}

/// The recycled files of all chunks, in order.
pub open spec fn all_recycled(v: Seq<RecycleChunk>) -> Seq<RecycleItem>
    decreases v.len(),
{
    if v.len() == 0 {
        Seq::empty()
    } else {
        all_recycled(v.drop_last()) + chunk_recycled(v.last())
    }
}

/// The notes on all chunks, in order.
pub open spec fn all_failed(v: Seq<RecycleChunk>) -> Seq<(Seq<char>, Seq<char>)>
    decreases v.len(),
{
    if v.len() == 0 {
        Seq::empty()
    } else {
        all_failed(v.drop_last()) + chunk_failed(v.last())
    }
}

/// How many files all chunks hold.
pub open spec fn item_count(v: Seq<RecycleChunk>) -> nat
    decreases v.len(),
{
    if v.len() == 0 {
        0
    } else {
        item_count(v.drop_last()) + v.last().items@.len()
    }
}

proof fn lemma_sum_concat<T>(a: Seq<T>, b: Seq<T>, f: spec_fn(T) -> nat)
    ensures
        sum(a + b, f) == sum(a, f) + sum(b, f),
    decreases b.len(),
{
    if b.len() == 0 {
        assert(a + b =~= a);
    } else {
        lemma_sum_concat(a, b.drop_last(), f);
        assert((a + b).drop_last() =~= a + b.drop_last());
    }
}

proof fn lemma_all_recycled_prefix(v: Seq<RecycleChunk>, i: int)
    requires
        0 <= i <= v.len(),
    ensures
        sum(all_recycled(v.take(i)), item_size()) <= sum(all_recycled(v), item_size()),
        all_recycled(v.take(i)).len() <= all_recycled(v).len(),
    decreases v.len() - i,
{
    if i < v.len() {
        lemma_all_recycled_prefix(v, i + 1);
        assert(v.take(i + 1).drop_last() =~= v.take(i));
        lemma_sum_concat(all_recycled(v.take(i)), chunk_recycled(v[i]), item_size());
    } else {
        assert(v.take(i) =~= v);
    }
}

/// Writes one chunk down.
fn settle_chunk(
    chunk: &RecycleChunk,
    now_unix: i64,
    manifest: &mut ActionManifest,
    outcome: &mut ApplyOutcome,
)
    requires
        old(outcome).deleted + chunk_recycled(*chunk).len() <= usize::MAX,
        old(outcome).bytes + sum(chunk_recycled(*chunk), item_size()) <= u64::MAX,
    ensures
        final(outcome).deleted == old(outcome).deleted + chunk_recycled(*chunk).len(),
        final(outcome).bytes == old(outcome).bytes + sum(chunk_recycled(*chunk), item_size()),
        pairs(final(outcome).failed@) == pairs(old(outcome).failed@) + chunk_failed(*chunk),
        actions(final(manifest).actions@) == actions(old(manifest).actions@) + chunk_recycled(
            *chunk,
        ).map_values(recycle_action(now_unix)),
        final(manifest).session_id == old(manifest).session_id,
{
    let ghost all = chunk.items@;
    let ghost (pm, pr, pd) = (missing(), refused(chunk.batch_ok), recycled(chunk.batch_ok));
    let ghost (nm, nr, na) = (missing_note(), refused_note(), recycle_action(now_unix));
    let ghost f = item_size();
    let ghost failed0 = pairs(outcome.failed@);
    let ghost acts0 = actions(manifest.actions@);
    let ghost deleted0 = outcome.deleted;
    let ghost bytes0 = outcome.bytes;
    proof {
        lemma_filter_ends(all, pm);
        lemma_filter_ends(all, pr);
        lemma_filter_ends(all, pd);
        assert(failed0 + all.take(0).filter(pm).map_values(nm) =~= failed0);
        assert(acts0 + all.take(0).filter(pd).map_values(na) =~= acts0);
    }
    let mut i: usize = 0;
    while i < chunk.items.len()
        invariant
            i <= chunk.items@.len(),
            all == chunk.items@,
            pm == missing(),
            nm == missing_note(),
            pairs(outcome.failed@) == failed0 + all.take(i as int).filter(pm).map_values(nm),
            outcome.deleted == deleted0,
            outcome.bytes == bytes0,
        decreases chunk.items@.len() - i,
    {
        let ghost before = outcome.failed@;
        proof {
            lemma_filter_take(all, pm, i as int);
        }
        if !chunk.items[i].existed {
            outcome.failed.push((chunk.items[i].path.clone(), copy("file no longer exists")));
            proof {
                let m = all.take(i as int).filter(pm);
                assert(pairs(outcome.failed@) =~= pairs(before).push(nm(all[i as int])));
                assert(m.push(all[i as int]).map_values(nm) =~= m.map_values(nm).push(
                    nm(all[i as int]),
                ));
                assert(failed0 + m.map_values(nm).push(nm(all[i as int])) =~= (failed0
                    + m.map_values(nm)).push(nm(all[i as int])));
            }
        }
        i += 1;
    }
    let ghost failed1 = pairs(outcome.failed@);
    assert(all.take(i as int) =~= all);
    assert(failed1 + all.take(0).filter(pr).map_values(nr) =~= failed1);
    let mut k: usize = 0;
    while k < chunk.items.len()
        invariant
            k <= chunk.items@.len(),
            all == chunk.items@,
            pr == refused(chunk.batch_ok),
            pd == recycled(chunk.batch_ok),
            nr == refused_note(),
            na == recycle_action(now_unix),
            f == item_size(),
            manifest.session_id == old(manifest).session_id,
            deleted0 + all.filter(pd).len() <= usize::MAX,
            bytes0 + sum(all.filter(pd), f) <= u64::MAX,
            outcome.deleted == deleted0 + all.take(k as int).filter(pd).len(),
            outcome.bytes == bytes0 + sum(all.take(k as int).filter(pd), f),
            pairs(outcome.failed@) == failed1 + all.take(k as int).filter(pr).map_values(nr),
            actions(manifest.actions@) == acts0 + all.take(k as int).filter(pd).map_values(na),
        decreases chunk.items@.len() - k,
    {
        let ghost fail_before = outcome.failed@;
        let ghost act_before = manifest.actions@;
        let item: &RecycleItem = &chunk.items[k];
        proof {
            lemma_filter_take(all, pr, k as int);
            lemma_filter_take(all, pd, k as int);
            crate::lists::lemma_filter_sum_prefix(all, pd, f, k + 1);
            lemma_filter_len_prefix(all, pd, k + 1);
            lemma_sum_push(all.take(k as int).filter(pd), f, all[k as int]);
        }
        if item.existed {
            let mut ok: bool = true;
            if needs_retry(chunk.batch_ok, item) {
                match &item.retry_error {
                    Some(e) => {
                        ok = false;
                        outcome.failed.push((item.path.clone(), e.clone()));
                        proof {
                            let m = all.take(k as int).filter(pr);
                            let x = all[k as int];
                            assert(pairs(outcome.failed@) =~= pairs(fail_before).push(nr(x)));
                            assert(m.push(x).map_values(nr) =~= m.map_values(nr).push(nr(x)));
                            assert(failed1 + m.map_values(nr).push(nr(x)) =~= (failed1
                                + m.map_values(nr)).push(nr(x)));
                        }
                    },
                    None => {},
                }
            }
            if ok {
                outcome.deleted += 1;
                outcome.bytes += item.size;
                let a: Action = Action {
                    from: item.abs.clone(),
                    disposition: Disposition::RecycleBin,
                    size: item.size,
                    at_unix: now_unix,
                };
                manifest.actions.push(a);
                proof {
                    let m = all.take(k as int).filter(pd);
                    let x = all[k as int];
                    assert(a@ == na(x));
                    assert(actions(manifest.actions@) =~= actions(act_before).push(na(x)));
                    assert(m.push(x).map_values(na) =~= m.map_values(na).push(na(x)));
                    assert(acts0 + m.map_values(na).push(na(x)) =~= (acts0 + m.map_values(
                        na,
                    )).push(na(x)));
                }
            }
        }
        k += 1;
    }
    assert(all.take(k as int) =~= all);
    assert(failed0 + all.filter(pm).map_values(nm) + all.filter(pr).map_values(nr) =~= failed0
        + chunk_failed(*chunk));
}

proof fn lemma_filter_len_prefix<T>(s: Seq<T>, p: spec_fn(T) -> bool, i: int)
    requires
        0 <= i <= s.len(),
    ensures
        s.take(i).filter(p).len() <= s.filter(p).len(),
    decreases s.len() - i,
{
    if i < s.len() {
        lemma_filter_take(s, p, i);
        lemma_filter_len_prefix(s, p, i + 1);
    } else {
        assert(s.take(i) =~= s);
    }
}

/// Accounts for files moved to the Recycle Bin, recording each success in the
/// manifest. Locked or vanished files are reported, never fatal.
pub fn recycle_files(
    chunks: &Vec<RecycleChunk>,
    now_unix: i64,
    manifest: &mut ActionManifest,
) -> (r: ApplyOutcome)
    requires
        all_recycled(chunks@).len() <= usize::MAX,
        sum(all_recycled(chunks@), item_size()) <= u64::MAX,
    ensures
        r.deleted == all_recycled(chunks@).len(),
        r.bytes == sum(all_recycled(chunks@), item_size()),
        pairs(r.failed@) == all_failed(chunks@),
        actions(final(manifest).actions@) == actions(old(manifest).actions@) + all_recycled(
            chunks@,
        ).map_values(recycle_action(now_unix)),
        final(manifest).session_id == old(manifest).session_id,
{
    let ghost acts0 = actions(manifest.actions@);
    let ghost na = recycle_action(now_unix);
    let mut outcome: ApplyOutcome = ApplyOutcome { deleted: 0, bytes: 0, failed: Vec::new() };
    let mut i: usize = 0;
    proof {
        assert(chunks@.take(0) =~= Seq::empty());
        assert(pairs(outcome.failed@) =~= Seq::empty());
        assert(acts0 + all_recycled(chunks@.take(0)).map_values(na) =~= acts0);
    }
    while i < chunks.len()
        invariant
            i <= chunks@.len(),
            na == recycle_action(now_unix),
            manifest.session_id == old(manifest).session_id,
            all_recycled(chunks@).len() <= usize::MAX,
            sum(all_recycled(chunks@), item_size()) <= u64::MAX,
            outcome.deleted == all_recycled(chunks@.take(i as int)).len(),
            outcome.bytes == sum(all_recycled(chunks@.take(i as int)), item_size()),
            pairs(outcome.failed@) == all_failed(chunks@.take(i as int)),
            actions(manifest.actions@) == acts0 + all_recycled(chunks@.take(i as int)).map_values(
                na,
            ),
        decreases chunks@.len() - i,
    {
        proof {
            lemma_all_recycled_prefix(chunks@, i + 1);
            assert(chunks@.take(i + 1).drop_last() =~= chunks@.take(i as int));
            let a = all_recycled(chunks@.take(i as int));
            let b = chunk_recycled(chunks@[i as int]);
            lemma_sum_concat(a, b, item_size());
            assert((a + b).map_values(na) =~= a.map_values(na) + b.map_values(na));
            assert(acts0 + a.map_values(na) + b.map_values(na) =~= acts0 + (a.map_values(na)
                + b.map_values(na)));
        }
        settle_chunk(&chunks[i], now_unix, manifest, &mut outcome);
        i += 1;
    }
    assert(chunks@.take(i as int) =~= chunks@);
    outcome
}

/// Every file of a recycle request is accounted for exactly once: it is either
/// counted as deleted and written into the manifest, or reported as failed.
pub proof fn law_recycle_accounts_for_every_file(v: Seq<RecycleChunk>)
    ensures
        all_recycled(v).len() + all_failed(v).len() == item_count(v),
    decreases v.len(),
{
    if v.len() > 0 {
        law_recycle_accounts_for_every_file(v.drop_last());
        lemma_chunk_counts(v.last().items@, v.last().batch_ok);
    }
}

proof fn lemma_chunk_counts(items: Seq<RecycleItem>, batch_ok: bool)
    ensures
        items.filter(missing()).len() + items.filter(refused(batch_ok)).len() + items.filter(
            recycled(batch_ok),
        ).len() == items.len(),
    decreases items.len(),
{
    reveal(Seq::filter);
    if items.len() > 0 {
        lemma_chunk_counts(items.drop_last(), batch_ok);
    }
}

// --------------------------------------------------------------- permanent --
/// One file of a permanent deletion and what became of it.
pub struct RemovedItem {
    pub path: String,
    pub abs: String,
    pub size: u64,
    /// Why the file could not be removed, if so.
    pub error: Option<String>,
}

pub open spec fn removed() -> spec_fn(RemovedItem) -> bool {
    |i: RemovedItem| i.error is None
}

pub open spec fn not_removed() -> spec_fn(RemovedItem) -> bool {
    |i: RemovedItem| i.error is Some
}

pub open spec fn removed_size() -> spec_fn(RemovedItem) -> nat {
    |i: RemovedItem| i.size as nat
}

pub open spec fn removal_action(now_unix: i64) -> spec_fn(RemovedItem) -> ActionView {
    |i: RemovedItem|
        ActionView {
            from: i.abs@,
            disposition: Disposition::Permanent,
            size: i.size,
            at_unix: now_unix,
        }
}

pub open spec fn removal_note() -> spec_fn(RemovedItem) -> (Seq<char>, Seq<char>) {
    |i: RemovedItem| (i.path@, i.error->0@)
}

/// Accounts for permanently deleted files - no Recycle Bin, no undo. Every
/// deletion is still recorded in the manifest (as `Disposition::Permanent`) so
/// the apply leaves an audit trail, but undo skips these entries.
pub fn delete_files_permanently(
    items: &Vec<RemovedItem>,
    now_unix: i64,
    manifest: &mut ActionManifest,
) -> (r: ApplyOutcome)
    requires
        sum(items@.filter(removed()), removed_size()) <= u64::MAX,
    ensures
        r.deleted == items@.filter(removed()).len(),
        r.bytes == sum(items@.filter(removed()), removed_size()),
        pairs(r.failed@) == items@.filter(not_removed()).map_values(removal_note()),
        actions(final(manifest).actions@) == actions(old(manifest).actions@) + items@.filter(
            removed(),
        ).map_values(removal_action(now_unix)),
        final(manifest).session_id == old(manifest).session_id,
{
    let ghost all = items@;
    let ghost (pd, pf) = (removed(), not_removed());
    let ghost (na, nf) = (removal_action(now_unix), removal_note());
    let ghost f = removed_size();
    let ghost acts0 = actions(manifest.actions@);
    let mut outcome: ApplyOutcome = ApplyOutcome { deleted: 0, bytes: 0, failed: Vec::new() };
    let mut i: usize = 0;
    proof {
        lemma_filter_ends(all, pd);
        lemma_filter_ends(all, pf);
        assert(pairs(outcome.failed@) =~= all.take(0).filter(pf).map_values(nf));
        assert(acts0 + all.take(0).filter(pd).map_values(na) =~= acts0);
    }
    while i < items.len()
        invariant
            i <= items@.len(),
            all == items@,
            pd == removed(),
            pf == not_removed(),
            na == removal_action(now_unix),
            nf == removal_note(),
            f == removed_size(),
            manifest.session_id == old(manifest).session_id,
            sum(all.filter(pd), f) <= u64::MAX,
            outcome.deleted <= i,
            outcome.deleted == all.take(i as int).filter(pd).len(),
            outcome.bytes == sum(all.take(i as int).filter(pd), f),
            pairs(outcome.failed@) == all.take(i as int).filter(pf).map_values(nf),
            actions(manifest.actions@) == acts0 + all.take(i as int).filter(pd).map_values(na),
        decreases items@.len() - i,
    {
        let ghost fail_before = outcome.failed@;
        let ghost act_before = manifest.actions@;
        let item: &RemovedItem = &items[i];
        proof {
            lemma_filter_take(all, pd, i as int);
            lemma_filter_take(all, pf, i as int);
            crate::lists::lemma_filter_sum_prefix(all, pd, f, i + 1);
            lemma_sum_push(all.take(i as int).filter(pd), f, all[i as int]);
        }
        match &item.error {
            None => {
                outcome.deleted += 1;
                outcome.bytes += item.size;
                let a: Action = Action {
                    from: item.abs.clone(),
                    disposition: Disposition::Permanent,
                    size: item.size,
                    at_unix: now_unix,
                };
                manifest.actions.push(a);
                proof {
                    let m = all.take(i as int).filter(pd);
                    let x = all[i as int];
                    assert(a@ == na(x));
                    assert(actions(manifest.actions@) =~= actions(act_before).push(na(x)));
                    assert(m.push(x).map_values(na) =~= m.map_values(na).push(na(x)));
                    assert(acts0 + m.map_values(na).push(na(x)) =~= (acts0 + m.map_values(
                        na,
                    )).push(na(x)));
                }
            },
            Some(e) => {
                outcome.failed.push((item.path.clone(), e.clone()));
                proof {
                    let m = all.take(i as int).filter(pf);
                    let x = all[i as int];
                    assert(pairs(outcome.failed@) =~= pairs(fail_before).push(nf(x)));
                    assert(m.push(x).map_values(nf) =~= m.map_values(nf).push(nf(x)));
                }
            },
        }
        i += 1;
    }
    assert(all.take(i as int) =~= all);
    outcome
}

/// A permanent deletion leaves nothing that undo would offer: a manifest with
/// nothing restorable stays so.
pub proof fn law_permanent_is_never_restorable(
    before: ActionManifest,
    after: ActionManifest,
    items: Seq<RemovedItem>,
    now_unix: i64,
)
    requires
        !before.restorable(),
        actions(after.actions@) == actions(before.actions@) + items.filter(removed()).map_values(
            removal_action(now_unix),
        ),
    ensures
        !after.restorable(),
{
    let a = actions(before.actions@);
    let b = items.filter(removed()).map_values(removal_action(now_unix));
    assert(actions(after.actions@).len() == after.actions@.len());
    assert forall|i: int| 0 <= i < after.actions@.len() implies (#[trigger] after.actions@[i]).disposition
        != Disposition::RecycleBin by {
        assert(actions(after.actions@)[i] == after.actions@[i]@);
        if i < a.len() {
            assert((a + b)[i] == a[i]);
            assert(before.actions@[i].disposition != Disposition::RecycleBin);
        } else {
            assert((a + b)[i] == b[i - a.len()]);
        }
    }
}

// -------------------------------------------------------------------- undo --
/// An item in the Recycle Bin.
pub struct BinItem {
    /// Where it was deleted from.
    pub original: String,
    /// Something exists there again.
    pub occupied: bool,
    pub time_deleted: i64,
}

/// The lowercased paths that a manifest put into the Recycle Bin (Windows paths
/// have no case).
pub open spec fn wanted_paths(v: Seq<ActionView>) -> Set<Seq<char>>
    decreases v.len(),
{
    if v.len() == 0 {
        Set::empty()
    } else {
        let before = wanted_paths(v.drop_last());
        if v.last().disposition == Disposition::RecycleBin {
            before.insert(lowercase(v.last().from))
        } else {
            before
        }
    }
}

/// Item `i` may be restored: the manifest asks for its path, and nothing has
/// taken its place.
pub open spec fn eligible(wanted: Set<Seq<char>>, items: Seq<BinItem>, i: int) -> bool {
    wanted.contains(lowercase(items[i].original@)) && !items[i].occupied
}

/// Item `j` is to be preferred over item `i`: the same path, deleted later, or
/// at the same time and listed first.
pub open spec fn preferred(items: Seq<BinItem>, j: int, i: int) -> bool {
    &&& lowercase(items[j].original@) == lowercase(items[i].original@)
    &&& items[j].time_deleted > items[i].time_deleted || (items[j].time_deleted
        == items[i].time_deleted && j < i)
}

/// Item `i` is the one to restore of its path among the first `n` items.
pub open spec fn is_best(wanted: Set<Seq<char>>, items: Seq<BinItem>, n: int, i: int) -> bool {
    &&& eligible(wanted, items, i)
    &&& forall|j: int|
        0 <= j < n && #[trigger] eligible(wanted, items, j) ==> !preferred(items, j, i)
}

/// What an undo restores.
pub struct UndoPlan {
    /// How many paths the manifest asks for.
    pub wanted: usize,
    /// The bin items to restore, one per path, ascending.
    pub restore: Vec<usize>,
}

#[derive(Debug)]
pub struct UndoOutcome {
    pub restored: usize,
    pub missing: usize,
}

/// `restore` lists exactly the best items, ascending.
pub open spec fn restores(wanted: Set<Seq<char>>, items: Seq<BinItem>, restore: Seq<usize>) -> bool {
    &&& forall|k: int|
        0 <= k < restore.len() ==> (#[trigger] restore[k]) < items.len() && is_best(
            wanted,
            items,
            items.len() as int,
            restore[k] as int,
        )
    &&& forall|k: int, l: int|
        0 <= k < l < restore.len() ==> (#[trigger] restore[k]) < (#[trigger] restore[l])
    &&& forall|i: int|
        0 <= i < items.len() && #[trigger] is_best(wanted, items, items.len() as int, i)
            ==> exists|k: int| 0 <= k < restore.len() && #[trigger] restore[k] == i
}

proof fn lemma_wanted_finite(v: Seq<ActionView>)
    ensures
        wanted_paths(v).finite(),
    decreases v.len(),
{
    if v.len() > 0 {
        lemma_wanted_finite(v.drop_last());
    }
}

/// No two items of a plan have the same path, so there are at most as many as
/// paths asked for.
proof fn lemma_restores_count(wanted: Set<Seq<char>>, items: Seq<BinItem>, restore: Seq<usize>)
    requires
        wanted.finite(),
        restores(wanted, items, restore),
    ensures
        restore.len() <= wanted.len(),
{
    let names = restore.map_values(|u: usize| lowercase(items[u as int].original@));
    assert(names.no_duplicates()) by {
        assert forall|k: int, l: int| 0 <= k < names.len() && 0 <= l < names.len() && k != l implies names[k]
            != names[l] by {
            let a = restore[k] as int;
            let b = restore[l] as int;
            assert(is_best(wanted, items, items.len() as int, a));
            assert(is_best(wanted, items, items.len() as int, b));
            if k < l {
                assert(restore[k] < restore[l]);
            } else {
                assert(restore[l] < restore[k]);
            }
            if names[k] == names[l] {
                assert(eligible(wanted, items, a) && eligible(wanted, items, b));
                assert(!preferred(items, a, b) && !preferred(items, b, a));
            }
        }
    }
    names.unique_seq_to_set();
    assert(names.to_set().subset_of(wanted)) by {
        assert forall|x: Seq<char>| names.to_set().contains(x) implies wanted.contains(x) by {
            let k = choose|k: int| 0 <= k < names.len() && names[k] == x;
            assert(is_best(wanted, items, items.len() as int, restore[k] as int));
        }
    }
    vstd::set_lib::lemma_len_subset(names.to_set(), wanted);
}

/// Plans an undo: restore every manifest entry still present in the Recycle
/// Bin. The same original path can occur multiple times in the bin; only the
/// most recently deleted twin is restored, and never over a file that exists
/// again. Programmatic undo is Windows-only.
pub fn undo(platform: Platform, manifest: &ActionManifest, bin: &Vec<BinItem>) -> (r: Result<
    UndoPlan,
    CoreError,
>)
    ensures
        match r {
            Ok(plan) => platform == Platform::Windows && plan.wanted == wanted_paths(
                actions(manifest.actions@),
            ).len() && restores(
                wanted_paths(actions(manifest.actions@)),
                bin@,
                plan.restore@,
            ) && plan.restore@.len() <= plan.wanted,
            Err(e) => platform != Platform::Windows && (e matches CoreError::Session(why) && why@
                == "undo is not available on this platform; open the Trash in Finder and use Put Back"@),
        },
{
    match platform {
        Platform::Windows => {},
        _ => {
            return Err(
                CoreError::session(
                    "undo is not available on this platform; open the Trash in Finder and use Put Back",
                ),
            );
        },
    }
    let ghost acts = actions(manifest.actions@);
    let mut wanted: StringHashSet = StringHashSet::new();
    let mut i: usize = 0;
    assert(acts.take(0) =~= Seq::empty());
    while i < manifest.actions.len()
        invariant
            i <= manifest.actions@.len(),
            acts == actions(manifest.actions@),
            wanted@ == wanted_paths(acts.take(i as int)),
        decreases manifest.actions@.len() - i,
    {
        let a: &Action = &manifest.actions[i];
        assert(acts.take(i + 1).drop_last() =~= acts.take(i as int));
        assert(acts.take(i + 1).last() == a@);
        if a.disposition == Disposition::RecycleBin {
            wanted.insert(to_lowercase(a.from.as_str()));
        }
        i += 1;
    }
    assert(acts.take(i as int) =~= acts);
    let ghost w = wanted@;
    let ghost items = bin@;
    // The best item of each path so far.
    let mut best: StringHashMap<usize> = StringHashMap::new();
    let mut k: usize = 0;
    while k < bin.len()
        invariant
            k <= bin@.len(),
            items == bin@,
            w == wanted@,
            forall|p: Seq<char>| #[trigger]
                best@.dom().contains(p) ==> best@[p] < k && lowercase(
                    items[best@[p] as int].original@,
                ) == p && is_best(w, items, k as int, best@[p] as int),
            forall|j: int|
                0 <= j < k && #[trigger] eligible(w, items, j) ==> best@.dom().contains(
                    lowercase(items[j].original@),
                ),
        decreases bin@.len() - k,
    {
        let item: &BinItem = &bin[k];
        let key: String = to_lowercase(item.original.as_str());
        let ghost best0 = best@;
        let fits: bool = wanted.contains(key.as_str()) && !item.occupied;
        assert(fits == eligible(w, items, k as int));
        if fits {
            let replace: bool = match best.get(key.as_str()) {
                Some(b) => bin[*b].time_deleted < item.time_deleted,
                None => true,
            };
            if replace {
                best.insert(key, k);
                proof {
                    assert(is_best(w, items, k + 1, k as int)) by {
                        assert forall|j: int| 0 <= j < k + 1 && #[trigger]
                            eligible(w, items, j) implies !preferred(items, j, k as int) by {
                            if j < k && lowercase(items[j].original@) == key@ {
                                assert(best0.dom().contains(key@));
                                assert(!preferred(items, j, best0[key@] as int));
                            }
                        }
                    }
                }
            }
        }
        proof {
            assert forall|p: Seq<char>| #[trigger] best@.dom().contains(p) implies best@[p] < k + 1
                && lowercase(items[best@[p] as int].original@) == p && is_best(
                w,
                items,
                k + 1,
                best@[p] as int,
            ) by {
                if best@[p] != k {
                    assert(best0.dom().contains(p) && best0[p] == best@[p]);
                    let b = best@[p] as int;
                    assert forall|j: int| 0 <= j < k + 1 && #[trigger]
                        eligible(w, items, j) implies !preferred(items, j, b) by {}
                }
            }
        }
        k += 1;
    }
    let mut restore: Vec<usize> = Vec::new();
    let mut m: usize = 0;
    while m < bin.len()
        invariant
            m <= bin@.len() == k,
            items == bin@,
            w == wanted@,
            forall|p: Seq<char>| #[trigger]
                best@.dom().contains(p) ==> best@[p] < k && lowercase(
                    items[best@[p] as int].original@,
                ) == p && is_best(w, items, k as int, best@[p] as int),
            forall|j: int|
                0 <= j < k && #[trigger] eligible(w, items, j) ==> best@.dom().contains(
                    lowercase(items[j].original@),
                ),
            forall|x: int|
                0 <= x < restore@.len() ==> (#[trigger] restore@[x]) < m && is_best(
                    w,
                    items,
                    k as int,
                    restore@[x] as int,
                ),
            forall|x: int, y: int|
                0 <= x < y < restore@.len() ==> (#[trigger] restore@[x]) < (#[trigger] restore@[y]),
            forall|j: int|
                0 <= j < m && #[trigger] is_best(w, items, k as int, j) ==> exists|x: int|
                    0 <= x < restore@.len() && #[trigger] restore@[x] == j,
        decreases bin@.len() - m,
    {
        let key: String = to_lowercase(bin[m].original.as_str());
        let ghost before = restore@;
        let chosen: bool = match best.get(key.as_str()) {
            Some(b) => *b == m,
            None => false,
        };
        proof {
            if is_best(w, items, k as int, m as int) {
                assert(eligible(w, items, m as int));
                assert(best@.dom().contains(key@));
                let b = best@[key@] as int;
                assert(is_best(w, items, k as int, b));
                assert(eligible(w, items, b));
                assert(!preferred(items, b, m as int) && !preferred(items, m as int, b));
                assert(b == m);
            }
        }
        if chosen {
            restore.push(m);
        }
        proof {
            assert forall|j: int| 0 <= j < m + 1 && #[trigger] is_best(w, items, k as int, j) implies exists|
                x: int,
            |
                0 <= x < restore@.len() && #[trigger] restore@[x] == j by {
                if j < m {
                    let x = choose|x: int| 0 <= x < before.len() && #[trigger] before[x] == j;
                    assert(restore@[x] == j);
                } else {
                    assert(restore@[restore@.len() - 1] == m);
                }
            }
        }
        m += 1;
    }
    proof {
        lemma_wanted_finite(acts);
        lemma_restores_count(w, items, restore@);
    }
    Ok(UndoPlan { wanted: wanted.len(), restore })
}

impl UndoPlan {
    /// What to tell the user once every item was tried: what could not be found
    /// in the bin at all is missing.
    pub fn outcome(&self, restored: usize, failed: usize) -> (r: UndoOutcome)
        requires
            restored + failed <= self.wanted,
        ensures
            r.restored == restored,
            r.missing == self.wanted - restored - failed,
    {
        UndoOutcome { restored, missing: self.wanted - restored - failed }
    }
}

/// Of the first `n` items some is the one to restore of a path that an eligible
/// item has.
proof fn lemma_best_exists(wanted: Set<Seq<char>>, items: Seq<BinItem>, n: int, i: int) -> (b: int)
    requires
        0 <= i < n <= items.len(),
        eligible(wanted, items, i),
    ensures
        0 <= b < n,
        is_best(wanted, items, n, b),
        lowercase(items[b].original@) == lowercase(items[i].original@),
    decreases n,
{
    let last = n - 1;
    if i == last {
        if exists|j: int|
            0 <= j < last && #[trigger] eligible(wanted, items, j) && lowercase(items[j].original@)
                == lowercase(items[i].original@) {
            let j = choose|j: int|
                0 <= j < last && #[trigger] eligible(wanted, items, j) && lowercase(
                    items[j].original@,
                ) == lowercase(items[i].original@);
            let c = lemma_best_exists(wanted, items, last, j);
            if preferred(items, last, c) {
                last
            } else {
                c
            }
        } else {
            last
        }
    } else {
        let c = lemma_best_exists(wanted, items, last, i);
        if eligible(wanted, items, last) && preferred(items, last, c) {
            last
        } else {
            c
        }
    }
}

/// An undo overwrites nothing, restores only what the manifest asks for, each
/// path once, and leaves out no path that the bin can give back.
pub proof fn law_undo_restores_each_path_once(
    wanted: Set<Seq<char>>,
    items: Seq<BinItem>,
    restore: Seq<usize>,
)
    requires
        restores(wanted, items, restore),
    ensures
        forall|k: int|
            0 <= k < restore.len() ==> !items[#[trigger] restore[k] as int].occupied
                && wanted.contains(lowercase(items[restore[k] as int].original@)),
        forall|k: int, l: int|
            0 <= k < l < restore.len() ==> lowercase(
                items[#[trigger] restore[k] as int].original@,
            ) != lowercase(items[#[trigger] restore[l] as int].original@),
        forall|i: int|
            0 <= i < items.len() && #[trigger] eligible(wanted, items, i) ==> exists|k: int|
                0 <= k < restore.len() && lowercase(items[#[trigger] restore[k] as int].original@)
                    == lowercase(items[i].original@),
{
    let n = items.len() as int;
    assert forall|k: int, l: int| 0 <= k < l < restore.len() implies lowercase(
        items[#[trigger] restore[k] as int].original@,
    ) != lowercase(items[#[trigger] restore[l] as int].original@) by {
        let (a, b) = (restore[k] as int, restore[l] as int);
        assert(is_best(wanted, items, n, a) && is_best(wanted, items, n, b));
        assert(eligible(wanted, items, a) && eligible(wanted, items, b));
        assert(!preferred(items, a, b) && !preferred(items, b, a));
    }
    assert forall|i: int| 0 <= i < items.len() && #[trigger] eligible(wanted, items, i) implies exists|
        k: int,
    |
        0 <= k < restore.len() && lowercase(items[#[trigger] restore[k] as int].original@)
            == lowercase(items[i].original@) by {
        let b = lemma_best_exists(wanted, items, n, i);
        assert(is_best(wanted, items, n, b));
    }
}

proof fn lemma_recycled_is_wanted(v: Seq<ActionView>, i: int)
    requires
        0 <= i < v.len(),
        v[i].disposition == Disposition::RecycleBin,
    ensures
        wanted_paths(v).contains(lowercase(v[i].from)),
    decreases v.len(),
{
    if i < v.len() - 1 {
        assert(v.drop_last()[i] == v[i]);
        lemma_recycled_is_wanted(v.drop_last(), i);
    }
}

/// Every file that a recycling moved to the bin is asked back by an undo of the
/// manifest that it was recorded in.
pub proof fn law_recycled_files_are_asked_back(
    before: Seq<ActionView>,
    chunks: Seq<RecycleChunk>,
    now_unix: i64,
    k: int,
)
    requires
        0 <= k < all_recycled(chunks).len(),
    ensures
        wanted_paths(
            before + all_recycled(chunks).map_values(recycle_action(now_unix)),
        ).contains(lowercase(all_recycled(chunks)[k].abs@)),
{
    let v = before + all_recycled(chunks).map_values(recycle_action(now_unix));
    let a = recycle_action(now_unix)(all_recycled(chunks)[k]);
    assert(v[before.len() + k] == a);
    lemma_recycled_is_wanted(v, before.len() + k);
}

} // verus!
