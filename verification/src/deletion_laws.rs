//! What a deletion reports and records of each file, and what an undo gives
//! back, said of the files themselves.
use crate::deletion::{
    all_failed, all_recycled, chunk_failed, chunk_recycled, chunk_stop, eligible, is_best, missing,
    missing_note, not_removed, preferred, recycle_action, recycled, refused, refused_note,
    removal_action, removal_note, removed, restores, wanted_paths, BinItem, RecycleChunk,
    RecycleItem, RemovedItem,
};
use crate::safety::{ActionView, Disposition};
use crate::text::lowercase;
use vstd::prelude::*;

verus! {

proof fn lemma_filtered<T>(v: Seq<T>, p: spec_fn(T) -> bool, k: int)
    requires
        0 <= k < v.len(),
        p(v[k]),
    ensures
        v.filter(p).contains(v[k]),
{
    v.lemma_filter_contains(p, k);
}

/// A file goes to the Recycle Bin where it existed and either the batch went
/// through, or the file is gone, or recycling it alone did not fail. Every other
/// file of the batch is reported.
pub proof fn law_a_file_is_recycled_or_reported(c: RecycleChunk, k: int)
    requires
        0 <= k < c.items@.len(),
    ensures
        ({
            let i = c.items@[k];
            &&& i.existed && (c.batch_ok || i.gone || i.retry_error is None) ==> chunk_recycled(
                c,
            ).contains(i)
            &&& !i.existed ==> chunk_failed(c).contains((i.path@, "file no longer exists"@))
            &&& i.existed && !c.batch_ok && !i.gone ==> (i.retry_error matches Some(why)
                ==> chunk_failed(c).contains((i.path@, why@)))
        }),
        forall|i: RecycleItem| #[trigger]
            chunk_recycled(c).contains(i) ==> c.items@.contains(i) && i.existed && (c.batch_ok
                || i.gone || i.retry_error is None),
{
    let i = c.items@[k];
    let a = c.items@.filter(missing());
    let b = c.items@.filter(refused(c.batch_ok));
    if recycled(c.batch_ok)(i) {
        lemma_filtered(c.items@, recycled(c.batch_ok), k);
    }
    if missing()(i) {
        lemma_filtered(c.items@, missing(), k);
        let j = choose|j: int| 0 <= j < a.len() && a[j] == i;
        assert(a.map_values(missing_note())[j] == missing_note()(i));
        assert(chunk_failed(c)[j] == missing_note()(i));
    }
    if refused(c.batch_ok)(i) {
        lemma_filtered(c.items@, refused(c.batch_ok), k);
        let j = choose|j: int| 0 <= j < b.len() && b[j] == i;
        assert(b.map_values(refused_note())[j] == refused_note()(i));
        assert(chunk_failed(c)[a.len() + j] == refused_note()(i));
    }
    assert forall|x: RecycleItem| #[trigger] chunk_recycled(c).contains(x) implies c.items@.contains(
        x,
    ) && x.existed && (c.batch_ok || x.gone || x.retry_error is None) by {
        let p = recycled(c.batch_ok);
        c.items@.lemma_filter_contains_rev(p, x);
        let j = choose|j: int| 0 <= j < c.items@.filter(p).len() && c.items@.filter(p)[j] == x;
        c.items@.lemma_filter_pred(p, j);
    }
}

/// Batches add up: what was recycled or reported in a batch is so in the whole.
pub proof fn law_batches_add_up(v: Seq<RecycleChunk>, b: int)
    requires
        0 <= b < v.len(),
    ensures
        forall|i: RecycleItem| #[trigger]
            chunk_recycled(v[b]).contains(i) ==> all_recycled(v).contains(i),
        forall|n: (Seq<char>, Seq<char>)| #[trigger]
            chunk_failed(v[b]).contains(n) ==> all_failed(v).contains(n),
    decreases v.len(),
{
    let front = v.drop_last();
    let fr = all_recycled(front);
    let ff = all_failed(front);
    if b < v.len() - 1 {
        law_batches_add_up(front, b);
    }
    assert forall|i: RecycleItem| #[trigger] chunk_recycled(v[b]).contains(i) implies all_recycled(
        v,
    ).contains(i) by {
        if b < v.len() - 1 {
            assert(chunk_recycled(front[b]).contains(i));
            let j = choose|j: int| 0 <= j < fr.len() && fr[j] == i;
            assert(all_recycled(v)[j] == i);
        } else {
            let last = chunk_recycled(v[b]);
            let j = choose|j: int| 0 <= j < last.len() && last[j] == i;
            assert(all_recycled(v)[fr.len() + j] == i);
        }
    }
    assert forall|n: (Seq<char>, Seq<char>)| #[trigger] chunk_failed(v[b]).contains(
        n,
    ) implies all_failed(v).contains(n) by {
        if b < v.len() - 1 {
            assert(chunk_failed(front[b]).contains(n));
            let j = choose|j: int| 0 <= j < ff.len() && ff[j] == n;
            assert(all_failed(v)[j] == n);
        } else {
            let last = chunk_failed(v[b]);
            let j = choose|j: int| 0 <= j < last.len() && last[j] == n;
            assert(all_failed(v)[ff.len() + j] == n);
        }
    }
}

/// What the manifest records of a recycled file: the absolute path, the Recycle
/// Bin, the file's own size and the time. Of a file deleted for good the same,
/// but not the bin.
pub proof fn law_manifest_records_the_file(now_unix: i64, i: RecycleItem, r: RemovedItem)
    ensures
        recycle_action(now_unix)(i).from == i.abs@,
        recycle_action(now_unix)(i).disposition == Disposition::RecycleBin,
        recycle_action(now_unix)(i).size == i.size,
        recycle_action(now_unix)(i).at_unix == now_unix,
        removal_action(now_unix)(r).from == r.abs@,
        removal_action(now_unix)(r).disposition == Disposition::Permanent,
        removal_action(now_unix)(r).size == r.size,
        removal_action(now_unix)(r).at_unix == now_unix,
{
}

/// A permanent deletion counts exactly the files that were removed without an
/// error, and reports each of the others with its path and its error.
pub proof fn law_removal_is_counted_or_reported(items: Seq<RemovedItem>, k: int)
    requires
        0 <= k < items.len(),
    ensures
        items[k].error is None ==> items.filter(removed()).contains(items[k]),
        items[k].error matches Some(why) ==> items.filter(not_removed()).map_values(
            removal_note(),
        ).contains((items[k].path@, why@)),
        items.filter(removed()).len() + items.filter(not_removed()).len() == items.len(),
{
    let i = items[k];
    let b = items.filter(not_removed());
    if i.error is None {
        lemma_filtered(items, removed(), k);
    } else {
        lemma_filtered(items, not_removed(), k);
        let j = choose|j: int| 0 <= j < b.len() && b[j] == i;
        assert(b.map_values(removal_note())[j] == (i.path@, i.error->0@));
    }
    lemma_removal_counts(items);
}

proof fn lemma_removal_counts(items: Seq<RemovedItem>)
    ensures
        items.filter(removed()).len() + items.filter(not_removed()).len() == items.len(),
    decreases items.len(),
{
    reveal(Seq::filter);
    if items.len() > 0 {
        lemma_removal_counts(items.drop_last());
    }
}

/// The action put this path into the Recycle Bin.
pub open spec fn binned(a: ActionView, path: Seq<char>) -> bool {
    a.disposition == Disposition::RecycleBin && lowercase(a.from) == path
}

/// An undo asks for the paths that the manifest put into the Recycle Bin, and for
/// no others; the case of letters does not count.
pub proof fn law_undo_asks_for_what_was_binned(v: Seq<ActionView>, path: Seq<char>)
    ensures
        wanted_paths(v).contains(path) <==> exists|i: int|
            0 <= i < v.len() && binned(#[trigger] v[i], path),
    decreases v.len(),
{
    if v.len() > 0 {
        let front = v.drop_last();
        law_undo_asks_for_what_was_binned(front, path);
        if exists|i: int| 0 <= i < front.len() && binned(#[trigger] front[i], path) {
            let i = choose|i: int| 0 <= i < front.len() && binned(#[trigger] front[i], path);
            assert(binned(v[i], path));
        }
        if binned(v.last(), path) {
            assert(binned(v[v.len() - 1], path));
        }
        if exists|i: int| 0 <= i < v.len() && binned(#[trigger] v[i], path) {
            let i = choose|i: int| 0 <= i < v.len() && binned(#[trigger] v[i], path);
            if i < front.len() {
                assert(binned(front[i], path));
            }
        }
    }
}

/// Of several deletions of one path the newest is given back: nothing that could
/// be restored to the same place was deleted later than what is restored there.
/// What stands in the way of nothing and is asked for is restored, itself or in a
/// newer version.
pub proof fn law_undo_restores_the_newest(
    wanted: Set<Seq<char>>,
    items: Seq<BinItem>,
    restore: Seq<usize>,
    j: int,
)
    requires
        restores(wanted, items, restore),
        0 <= j < items.len(),
        !items[j].occupied,
        wanted.contains(lowercase(items[j].original@)),
    ensures
        forall|k: int|
            0 <= k < restore.len() && lowercase(items[#[trigger] restore[k] as int].original@)
                == lowercase(items[j].original@) ==> items[restore[k] as int].time_deleted
                >= items[j].time_deleted,
        exists|k: int|
            0 <= k < restore.len() && lowercase(items[#[trigger] restore[k] as int].original@)
                == lowercase(items[j].original@),
{
    let n = items.len() as int;
    assert(eligible(wanted, items, j));
    crate::deletion::law_undo_restores_each_path_once(wanted, items, restore);
    assert forall|k: int|
        0 <= k < restore.len() && lowercase(items[#[trigger] restore[k] as int].original@)
            == lowercase(items[j].original@) implies items[restore[k] as int].time_deleted
        >= items[j].time_deleted by {
        let a = restore[k] as int;
        assert(is_best(wanted, items, n, a));
        assert(!preferred(items, j, a));
    }
}

/// Files are recycled in batches of 500: every batch but the last is full, and
/// together they reach the end.
pub proof fn law_batches_are_full(from: int, total: int)
    requires
        0 <= from <= total,
    ensures
        from <= chunk_stop(from, total) <= total,
        from < total ==> from < chunk_stop(from, total),
        chunk_stop(from, total) - from <= 500,
        chunk_stop(from, total) < total ==> chunk_stop(from, total) - from == 500,
{
}

} // verus!
