//! What the figures of a report say of the scanned records.
use crate::lists::sum;
use crate::order::{
    before, descending, is_sorted_copy, is_stable_order, key_lt, law_sorted_copy_is_ascending,
    lemma_key_total, permuted,
};
use crate::paths::{parent, same_path, under, PathStyle};
use crate::report::{
    age_bucket, at_most, bucket_label, dir_entries, dirs_above, ext_entries, ext_name, file_bytes,
    files, has_ext, in_bucket, is_file, largest, size_keys, tallied, tally_keys, top_tallies,
};
use crate::tally::{tally_bytes, tally_count, tally_names};
use crate::text::lex_lt;
use crate::types::Record;
use vstd::prelude::*;

verus! {

// ------------------------------------------------------------------- lists --
/// The head of a list that is cut short is as long as it may be.
proof fn lemma_at_most<T>(v: Seq<T>, n: nat)
    ensures
        at_most(v, n).len() == if n < v.len() {
            n
        } else {
            v.len()
        },
        forall|i: int| 0 <= i < at_most(v, n).len() ==> #[trigger] at_most(v, n)[i] == v[i],
{
}

/// The files are the records that are no directories.
pub proof fn law_files_are_no_directories(v: Seq<Record>, r: Record)
    ensures
        files(v).contains(r) <==> v.contains(r) && !r.is_dir,
{
    lemma_filter_holds(v, is_file(), r);
}

proof fn lemma_filter_holds<T>(v: Seq<T>, p: spec_fn(T) -> bool, x: T)
    ensures
        v.filter(p).contains(x) <==> v.contains(x) && p(x),
{
    if v.contains(x) && p(x) {
        let i = choose|i: int| 0 <= i < v.len() && v[i] == x;
        v.lemma_filter_contains(p, i);
        let k = choose|k: int| 0 <= k < v.filter(p).len() && v.filter(p)[k] == v[i];
        assert(v.filter(p)[k] == x);
    }
    if v.filter(p).contains(x) {
        v.lemma_filter_contains_rev(p, x);
        v.lemma_filter_pred(p, choose|k: int| 0 <= k < v.filter(p).len() && v.filter(p)[k] == x);
    }
}

// ----------------------------------------------------------- largest files --
proof fn lemma_largest(v: Seq<Record>, n: nat, out: Seq<Record>)
    requires
        largest(v, n, out),
    ensures
        out.len() == if n < v.len() {
            n
        } else {
            v.len()
        },
        forall|i: int, j: int|
            0 <= i < j < out.len() ==> (#[trigger] out[i]).size >= (#[trigger] out[j]).size && (
            out[i].size == out[j].size ==> !lex_lt(out[j].path, out[i].path)),
        forall|i: int| 0 <= i < out.len() ==> v.contains(#[trigger] out[i]),
        forall|r: Record, i: int|
            v.contains(r) && !out.contains(r) && 0 <= i < out.len() ==> (#[trigger] out[i]).size
                >= (#[trigger] r.size),
{
    let sorted = choose|sorted: Seq<Record>| #[trigger]
        is_sorted_copy(v, size_keys(v), sorted) && out == at_most(sorted, n);
    law_sorted_copy_is_ascending(
        v,
        |r: Record| (descending(r.size), r.path),
        size_keys(v),
        sorted,
    );
    lemma_at_most(sorted, n);
    assert forall|i: int| 0 <= i < out.len() implies v.contains(#[trigger] out[i]) by {
        assert(sorted.contains(sorted[i]));
    }
    assert forall|i: int, j: int| 0 <= i < j < out.len() implies (#[trigger] out[i]).size >= (
    #[trigger] out[j]).size && (out[i].size == out[j].size ==> !lex_lt(
        out[j].path,
        out[i].path,
    )) by {
        assert(out[i] == sorted[i] && out[j] == sorted[j]);
    }
    assert forall|r: Record, i: int|
        v.contains(r) && !out.contains(r) && 0 <= i < out.len() implies (#[trigger] out[i]).size
        >= (#[trigger] r.size) by {
        assert(sorted.contains(r));
        let k = choose|k: int| 0 <= k < sorted.len() && sorted[k] == r;
        if k < out.len() {
            assert(out[k] == r);
        }
        assert(out[i] == sorted[i]);
    }
}

/// The list of the largest files has as many as asked for, if there are so many;
/// it holds scanned files only, the largest first and those of one size by their
/// paths, and no file that is left out is larger than one that is listed.
pub proof fn law_top_files_are_the_largest(v: Seq<Record>, n: nat, out: Seq<Record>)
    requires
        largest(files(v), n, out),
    ensures
        out.len() <= n,
        forall|i: int|
            0 <= i < out.len() ==> v.contains(#[trigger] out[i]) && !out[i].is_dir,
        forall|i: int, j: int|
            0 <= i < j < out.len() ==> (#[trigger] out[i]).size >= (#[trigger] out[j]).size && (
            out[i].size == out[j].size ==> !lex_lt(out[j].path, out[i].path)),
        forall|r: Record|
            #![trigger v.contains(r)]
            v.contains(r) && !r.is_dir && !out.contains(r) ==> out.len() == n && forall|i: int|
                0 <= i < out.len() ==> (#[trigger] out[i]).size >= r.size,
{
    lemma_largest(files(v), n, out);
    assert forall|i: int| 0 <= i < out.len() implies v.contains(#[trigger] out[i])
        && !out[i].is_dir by {
        law_files_are_no_directories(v, out[i]);
    }
    assert forall|r: Record|
        #![trigger v.contains(r)]
        v.contains(r) && !r.is_dir && !out.contains(r) implies out.len() == n && forall|i: int|
        0 <= i < out.len() ==> (#[trigger] out[i]).size >= r.size by {
        law_files_are_no_directories(v, r);
        lemma_cut_if_missing(files(v), n, out, r);
        assert forall|i: int| 0 <= i < out.len() implies (#[trigger] out[i]).size >= r.size by {
            assert(r.size == r.size);
        }
    }
}

proof fn lemma_cut_if_missing(v: Seq<Record>, n: nat, out: Seq<Record>, r: Record)
    requires
        largest(v, n, out),
        v.contains(r),
        !out.contains(r),
    ensures
        out.len() == n,
{
    let sorted = choose|sorted: Seq<Record>| #[trigger]
        is_sorted_copy(v, size_keys(v), sorted) && out == at_most(sorted, n);
    law_sorted_copy_is_ascending(
        v,
        |r: Record| (descending(r.size), r.path),
        size_keys(v),
        sorted,
    );
    assert(sorted.contains(r));
    lemma_at_most(sorted, n);
}

/// A file has an extension of a report if it is the file's own, or if the file
/// has none and the report calls that `(none)`.
pub proof fn law_extension_names_the_file(r: Record, ext: Seq<char>)
    ensures
        has_ext(ext)(r) <==> !r.is_dir && (r.ext == Some(ext) || (r.ext is None && ext
            == "(none)"@)),
{
}

// -------------------------------------------------------------- extensions --
/// The files of an extension, by the record's own field.
pub open spec fn of_extension(ext: Seq<char>) -> spec_fn(Record) -> bool {
    |r: Record| !r.is_dir && (r.ext == Some(ext) || (r.ext is None && ext == "(none)"@))
}

proof fn lemma_extension_tally(v: Seq<Record>, ext: Seq<char>)
    ensures
        tally_count(ext_entries(v), ext) == v.filter(of_extension(ext)).len(),
        tally_bytes(ext_entries(v), ext) == sum(
            v.filter(of_extension(ext)),
            |r: Record| r.size as nat,
        ),
    decreases v.len(),
{
    reveal(Seq::filter);
    let p = of_extension(ext);
    if v.len() > 0 {
        let front = v.drop_last();
        let last = v.last();
        lemma_extension_tally(front, ext);
        if last.is_dir {
            assert(files(v) == files(front));
        } else {
            assert(files(v) == files(front).push(last));
            assert(ext_entries(v) =~= ext_entries(front).push((ext_name(last), last.size)));
            assert(ext_entries(v).drop_last() =~= ext_entries(front));
        }
        if p(last) {
            assert(v.filter(p) == front.filter(p).push(last));
            assert(v.filter(p).drop_last() =~= front.filter(p));
        } else {
            assert(v.filter(p) == front.filter(p));
        }
    }
}

proof fn lemma_top_tallies(
    entries: Seq<(Seq<char>, u64)>,
    n: nat,
    out: Seq<(Seq<char>, nat, nat)>,
)
    requires
        top_tallies(entries, n, out),
        forall|k: Seq<char>| #[trigger] tally_bytes(entries, k) <= u64::MAX,
    ensures
        out.len() <= n,
        forall|i: int|
            0 <= i < out.len() ==> {
                &&& (#[trigger] out[i]).1 == tally_count(entries, out[i].0)
                &&& out[i].2 == tally_bytes(entries, out[i].0)
            },
        forall|i: int, j: int|
            0 <= i < j < out.len() ==> (#[trigger] out[i]).0 != (#[trigger] out[j]).0 && out[i].2
                >= out[j].2,
        forall|k: Seq<char>| #[trigger]
            tally_names(entries).contains(k) ==> (exists|i: int|
                0 <= i < out.len() && (#[trigger] out[i]).0 == k) || (out.len() == n && forall|
                i: int,
            |
                0 <= i < out.len() ==> (#[trigger] out[i]).2 >= tally_bytes(entries, k)),
{
    let rows = tallied(entries);
    let key = |t: (Seq<char>, nat, nat)| (descending(t.2 as u64), t.0);
    let sorted = choose|sorted: Seq<(Seq<char>, nat, nat)>| #[trigger]
        is_sorted_copy(rows, tally_keys(rows), sorted) && out == at_most(sorted, n);
    law_sorted_copy_is_ascending(rows, key, tally_keys(rows), sorted);
    lemma_at_most(sorted, n);
    crate::tally::lemma_tally_names(entries);
    assert forall|i: int| 0 <= i < sorted.len() implies {
        &&& (#[trigger] sorted[i]).1 == tally_count(entries, sorted[i].0)
        &&& sorted[i].2 == tally_bytes(entries, sorted[i].0)
    } by {
        assert(sorted.contains(sorted[i]));
        let k = choose|k: int| 0 <= k < rows.len() && rows[k] == sorted[i];
        assert(rows[k].0 == tally_names(entries)[k]);
    }
    let keys = tally_keys(rows);
    let p = choose|p: Seq<usize>| is_stable_order(keys, p) && #[trigger] permuted(rows, p, sorted);
    assert forall|i: int, j: int| 0 <= i < j < sorted.len() implies (#[trigger] sorted[i]).0 != (
    #[trigger] sorted[j]).0 by {
        let a = p[i] as int;
        let b = p[j] as int;
        assert(before(keys, a, b));
        lemma_key_total(keys[a], keys[a]);
        assert(a != b);
        assert(rows[a].0 == tally_names(entries)[a] && rows[b].0 == tally_names(entries)[b]);
    }
    assert forall|i: int, j: int| 0 <= i < j < out.len() implies (#[trigger] out[i]).0 != (
    #[trigger] out[j]).0 && out[i].2 >= out[j].2 by {
        assert(out[i] == sorted[i] && out[j] == sorted[j]);
        assert(!key_lt(key(sorted[j]), key(sorted[i])));
        assert(tally_bytes(entries, sorted[i].0) <= u64::MAX);
        assert(tally_bytes(entries, sorted[j].0) <= u64::MAX);
    }
    assert forall|k: Seq<char>| #[trigger] tally_names(entries).contains(k) implies (exists|i: int|
        0 <= i < out.len() && (#[trigger] out[i]).0 == k) || (out.len() == n && forall|i: int|
        0 <= i < out.len() ==> (#[trigger] out[i]).2 >= tally_bytes(entries, k)) by {
        let t = choose|t: int| 0 <= t < tally_names(entries).len() && tally_names(entries)[t] == k;
        assert(rows[t].0 == k);
        assert(rows.contains(rows[t]));
        assert(sorted.contains(rows[t]));
        let s = choose|s: int| 0 <= s < sorted.len() && sorted[s] == rows[t];
        if s < out.len() {
            assert(out[s].0 == k);
        } else {
            assert forall|i: int| 0 <= i < out.len() implies (#[trigger] out[i]).2 >= tally_bytes(
                entries,
                k,
            ) by {
                assert(out[i] == sorted[i]);
                assert(!key_lt(key(sorted[s]), key(sorted[i])));
                assert(tally_bytes(entries, sorted[i].0) <= u64::MAX);
                assert(tally_bytes(entries, k) <= u64::MAX);
            }
        }
    }
}

/// A report by extension counts and adds up the files of each extension it lists,
/// lists each extension once, the one with the most bytes first, and leaves out
/// an extension only where it is full and every listed one has as many bytes.
pub proof fn law_extensions_are_counted(
    v: Seq<Record>,
    n: nat,
    out: Seq<(Seq<char>, nat, nat)>,
)
    requires
        top_tallies(ext_entries(v), n, out),
        sum(files(v), |r: Record| r.size as nat) <= u64::MAX,
    ensures
        out.len() <= n,
        forall|i: int|
            0 <= i < out.len() ==> {
                &&& (#[trigger] out[i]).1 == v.filter(of_extension(out[i].0)).len()
                &&& out[i].2 == sum(v.filter(of_extension(out[i].0)), |r: Record| r.size as nat)
            },
        forall|i: int, j: int|
            0 <= i < j < out.len() ==> (#[trigger] out[i]).0 != (#[trigger] out[j]).0 && out[i].2
                >= out[j].2,
        forall|ext: Seq<char>| #[trigger]
            v.filter(of_extension(ext)).len() > 0 ==> (exists|i: int|
                0 <= i < out.len() && (#[trigger] out[i]).0 == ext) || (out.len() == n && forall|
                i: int,
            |
                0 <= i < out.len() ==> (#[trigger] out[i]).2 >= sum(
                    v.filter(of_extension(ext)),
                    |r: Record| r.size as nat,
                )),
{
    let e = ext_entries(v);
    assert forall|k: Seq<char>| #[trigger] tally_bytes(e, k) <= u64::MAX by {
        lemma_extension_bytes_fit(v, k);
    }
    lemma_top_tallies(e, n, out);
    assert forall|i: int| 0 <= i < out.len() implies {
        &&& (#[trigger] out[i]).1 == v.filter(of_extension(out[i].0)).len()
        &&& out[i].2 == sum(v.filter(of_extension(out[i].0)), |r: Record| r.size as nat)
    } by {
        lemma_extension_tally(v, out[i].0);
    }
    crate::tally::lemma_tally_names(e);
    assert forall|ext: Seq<char>| #[trigger] v.filter(of_extension(ext)).len() > 0 implies (exists|
        i: int,
    |
        0 <= i < out.len() && (#[trigger] out[i]).0 == ext) || (out.len() == n && forall|i: int|
        0 <= i < out.len() ==> (#[trigger] out[i]).2 >= sum(
            v.filter(of_extension(ext)),
            |r: Record| r.size as nat,
        )) by {
        lemma_extension_tally(v, ext);
        assert(tally_names(e).contains(ext));
    }
}

proof fn lemma_extension_bytes_fit(v: Seq<Record>, ext: Seq<char>)
    ensures
        tally_bytes(ext_entries(v), ext) <= sum(files(v), |r: Record| r.size as nat),
    decreases v.len(),
{
    reveal(Seq::filter);
    if v.len() > 0 {
        let front = v.drop_last();
        let last = v.last();
        lemma_extension_bytes_fit(front, ext);
        if last.is_dir {
            assert(files(v) == files(front));
        } else {
            assert(files(v) == files(front).push(last));
            assert(files(v).drop_last() =~= files(front));
            assert(ext_entries(v) =~= ext_entries(front).push((ext_name(last), last.size)));
            assert(ext_entries(v).drop_last() =~= ext_entries(front));
        }
    }
}

// --------------------------------------------------------------------- ages --
/// The age buckets are cut at 30, 90, 365 and 730 days after the last change, and
/// their labels say so. Directories are in none.
pub proof fn law_age_buckets_are_cut_at_days(now_unix: i64, r: Record)
    ensures
        ({
            let age = now_unix - r.modified;
            &&& in_bucket(now_unix, 0)(r) <==> !r.is_dir && age < 2_592_000
            &&& in_bucket(now_unix, 1)(r) <==> !r.is_dir && 2_592_000 <= age < 7_776_000
            &&& in_bucket(now_unix, 2)(r) <==> !r.is_dir && 7_776_000 <= age < 31_536_000
            &&& in_bucket(now_unix, 3)(r) <==> !r.is_dir && 31_536_000 <= age < 63_072_000
            &&& in_bucket(now_unix, 4)(r) <==> !r.is_dir && 63_072_000 <= age
        }),
        bucket_label(0) == "< 30 days"@,
        bucket_label(1) == "30-90 days"@,
        bucket_label(2) == "90-365 days"@,
        bucket_label(3) == "1-2 years"@,
        bucket_label(4) == "> 2 years"@,
{
}

/// A file that changed later is in no later bucket.
pub proof fn law_newer_files_are_in_earlier_buckets(now_unix: i64, a: Record, b: Record)
    requires
        a.modified >= b.modified,
    ensures
        age_bucket(now_unix - a.modified) <= age_bucket(now_unix - b.modified),
{
}

// -------------------------------------------------------------- directories --
/// A file counts for its parent directory, and for the directories that its
/// parent counts for, as long as they lie below the root; it counts for none from
/// the root upwards.
pub proof fn law_a_file_counts_for_the_directories_over_it(
    style: PathStyle,
    path: Seq<char>,
    root: Seq<char>,
    d: Seq<char>,
)
    ensures
        dirs_above(style, path, root).contains(d) ==> under(style, d, root) && !same_path(
            style,
            d,
            root,
        ),
        parent(style, path) == Some(d) && under(style, d, root) && !same_path(style, d, root)
            ==> dirs_above(style, path, root).contains(d),
        parent(style, path) matches Some(p) ==> under(style, p, root) && !same_path(style, p, root)
            ==> (dirs_above(style, path, root).contains(d) <==> d == p || dirs_above(
            style,
            p,
            root,
        ).contains(d)),
        dirs_above(style, path, root).contains(d) ==> d.len() < path.len(),
    decreases path.len(),
{
    crate::paths::lemma_parent_shorter(style, path);
    let all = dirs_above(style, path, root);
    match parent(style, path) {
        None => {},
        Some(p) => {
            if under(style, p, root) && !same_path(style, p, root) {
                let up = dirs_above(style, p, root);
                law_a_file_counts_for_the_directories_over_it(style, p, root, d);
                assert(all =~= seq![p] + up);
                assert(all[0] == p);
                if up.contains(d) {
                    let i = choose|i: int| 0 <= i < up.len() && up[i] == d;
                    assert(all[i + 1] == d);
                }
                if all.contains(d) && d != p {
                    let i = choose|i: int| 0 <= i < all.len() && all[i] == d;
                    assert(up[i - 1] == d);
                }
            }
        },
    }
}

/// The files of which a directory is one of the directories over them.
pub open spec fn below(style: PathStyle, root: Seq<char>, d: Seq<char>) -> spec_fn(Record) -> bool {
    |r: Record| !r.is_dir && dirs_above(style, r.path, root).contains(d)
}

proof fn lemma_dirs_above_once(style: PathStyle, path: Seq<char>, root: Seq<char>, size: u64, d: Seq<char>)
    ensures
        tally_count(
            dirs_above(style, path, root).map_values(|x: Seq<char>| (x, size)),
            d,
        ) == if dirs_above(style, path, root).contains(d) {
            1nat
        } else {
            0nat
        },
        tally_bytes(
            dirs_above(style, path, root).map_values(|x: Seq<char>| (x, size)),
            d,
        ) == if dirs_above(style, path, root).contains(d) {
            size as nat
        } else {
            0nat
        },
    decreases path.len(),
{
    crate::paths::lemma_parent_shorter(style, path);
    law_a_file_counts_for_the_directories_over_it(style, path, root, d);
    let f = |x: Seq<char>| (x, size);
    let all = dirs_above(style, path, root);
    match parent(style, path) {
        None => {},
        Some(p) => {
            if under(style, p, root) && !same_path(style, p, root) {
                let up = dirs_above(style, p, root);
                lemma_dirs_above_once(style, p, root, size, d);
                law_a_file_counts_for_the_directories_over_it(style, p, root, d);
                assert(all.map_values(f) =~= seq![(p, size)] + up.map_values(f));
                lemma_tally_joined(seq![(p, size)], up.map_values(f), d);
                assert(seq![(p, size)].drop_last() =~= Seq::empty());
                reveal_with_fuel(tally_count, 2);
                reveal_with_fuel(tally_bytes, 2);
            }
        },
    }
}

proof fn lemma_tally_joined(a: Seq<(Seq<char>, u64)>, b: Seq<(Seq<char>, u64)>, d: Seq<char>)
    ensures
        tally_count(a + b, d) == tally_count(a, d) + tally_count(b, d),
        tally_bytes(a + b, d) == tally_bytes(a, d) + tally_bytes(b, d),
    decreases b.len(),
{
    if b.len() == 0 {
        assert(a + b =~= a);
    } else {
        lemma_tally_joined(a, b.drop_last(), d);
        assert((a + b).drop_last() =~= a + b.drop_last());
    }
}

proof fn lemma_directory_tally(style: PathStyle, v: Seq<Record>, root: Seq<char>, d: Seq<char>)
    ensures
        tally_count(dir_entries(style, v, root), d) == v.filter(below(style, root, d)).len(),
        tally_bytes(dir_entries(style, v, root), d) == sum(
            v.filter(below(style, root, d)),
            |r: Record| r.size as nat,
        ),
    decreases v.len(),
{
    reveal(Seq::filter);
    let p = below(style, root, d);
    if v.len() > 0 {
        let front = v.drop_last();
        let last = v.last();
        lemma_directory_tally(style, front, root, d);
        if !last.is_dir {
            lemma_dirs_above_once(style, last.path, root, last.size, d);
            lemma_tally_joined(
                dir_entries(style, front, root),
                dirs_above(style, last.path, root).map_values(|x: Seq<char>| (x, v.last().size)),
                d,
            );
        }
        if p(last) {
            assert(v.filter(p) == front.filter(p).push(last));
            assert(v.filter(p).drop_last() =~= front.filter(p));
        } else {
            assert(v.filter(p) == front.filter(p));
        }
    }
}

/// A report by directory counts and adds up, for each directory it lists, all the
/// files below it, however deep, and lists each directory once, the one with the
/// most bytes first.
pub proof fn law_directories_are_counted(
    style: PathStyle,
    v: Seq<Record>,
    root: Seq<char>,
    n: nat,
    out: Seq<(Seq<char>, nat, nat)>,
)
    requires
        top_tallies(dir_entries(style, v, root), n, out),
        sum(files(v), |r: Record| r.size as nat) <= u64::MAX,
    ensures
        out.len() <= n,
        forall|i: int|
            0 <= i < out.len() ==> {
                &&& (#[trigger] out[i]).1 == v.filter(below(style, root, out[i].0)).len()
                &&& out[i].2 == sum(
                    v.filter(below(style, root, out[i].0)),
                    |r: Record| r.size as nat,
                )
            },
        forall|i: int, j: int|
            0 <= i < j < out.len() ==> (#[trigger] out[i]).0 != (#[trigger] out[j]).0 && out[i].2
                >= out[j].2,
        forall|d: Seq<char>| #[trigger]
            v.filter(below(style, root, d)).len() > 0 ==> (exists|i: int|
                0 <= i < out.len() && (#[trigger] out[i]).0 == d) || (out.len() == n && forall|
                i: int,
            |
                0 <= i < out.len() ==> (#[trigger] out[i]).2 >= sum(
                    v.filter(below(style, root, d)),
                    |r: Record| r.size as nat,
                )),
{
    let e = dir_entries(style, v, root);
    assert forall|k: Seq<char>| #[trigger] tally_bytes(e, k) <= u64::MAX by {
        lemma_directory_tally(style, v, root, k);
        lemma_below_fits(style, v, root, k);
    }
    lemma_top_tallies(e, n, out);
    assert forall|i: int| 0 <= i < out.len() implies {
        &&& (#[trigger] out[i]).1 == v.filter(below(style, root, out[i].0)).len()
        &&& out[i].2 == sum(v.filter(below(style, root, out[i].0)), |r: Record| r.size as nat)
    } by {
        lemma_directory_tally(style, v, root, out[i].0);
    }
    crate::tally::lemma_tally_names(e);
    assert forall|d: Seq<char>| #[trigger] v.filter(below(style, root, d)).len() > 0 implies (exists|
        i: int,
    |
        0 <= i < out.len() && (#[trigger] out[i]).0 == d) || (out.len() == n && forall|i: int|
        0 <= i < out.len() ==> (#[trigger] out[i]).2 >= sum(
            v.filter(below(style, root, d)),
            |r: Record| r.size as nat,
        )) by {
        lemma_directory_tally(style, v, root, d);
        assert(tally_names(e).contains(d));
    }
}

proof fn lemma_below_fits(style: PathStyle, v: Seq<Record>, root: Seq<char>, d: Seq<char>)
    ensures
        sum(v.filter(below(style, root, d)), |r: Record| r.size as nat) <= sum(
            files(v),
            |r: Record| r.size as nat,
        ),
    decreases v.len(),
{
    reveal(Seq::filter);
    let p = below(style, root, d);
    if v.len() > 0 {
        let front = v.drop_last();
        let last = v.last();
        lemma_below_fits(style, front, root, d);
        if last.is_dir {
            assert(files(v) == files(front));
        } else {
            assert(files(v) == files(front).push(last));
            assert(files(v).drop_last() =~= files(front));
        }
        if p(last) {
            assert(v.filter(p) == front.filter(p).push(last));
            assert(v.filter(p).drop_last() =~= front.filter(p));
        } else {
            assert(v.filter(p) == front.filter(p));
        }
    }
}

/// An analysis lists the files that a report lists, each with its own path and
/// size.
pub proof fn law_analysis_lists_paths_and_sizes(v: Seq<Record>, i: int)
    requires
        0 <= i < v.len(),
    ensures
        crate::analysis::record_items(v).len() == v.len(),
        crate::analysis::record_items(v)[i] == (v[i].path, v[i].size),
        crate::merge::is_dir_record()(v[i]) <==> v[i].is_dir,
{
}

/// The bytes of a scan are the sizes of its files, added up; directories count
/// nothing.
pub proof fn law_bytes_are_those_of_files(v: Seq<Record>)
    ensures
        file_bytes(v) == sum(
            v,
            |r: Record|
                if r.is_dir {
                    0nat
                } else {
                    r.size as nat
                },
        ),
    decreases v.len(),
{
    reveal(Seq::filter);
    if v.len() > 0 {
        let front = v.drop_last();
        law_bytes_are_those_of_files(front);
        if v.last().is_dir {
            assert(files(v) == files(front));
        } else {
            assert(files(v) == files(front).push(v.last()));
            assert(files(v).drop_last() =~= files(front));
        }
    }
}

} // verus!
