//! Stable sorting by a number and a string.
//!
//! Everything the library sorts is ordered by a `SortKey`. `stable_order`
//! computes the order as a list of positions, `sort_by_keys` carries it out,
//! and `is_sorted_copy` says what that gives.
use crate::text::{less_chars, lex_lt, lemma_lex_total, lemma_lex_trans};
use vstd::prelude::*;

verus! {

/// What an item is sorted by: first `rank`, then `name`.
pub struct SortKey {
    pub rank: u64,
    pub name: Vec<char>,
}

impl View for SortKey {
    type V = (u64, Seq<char>);

    open spec fn view(&self) -> (u64, Seq<char>) {
        (self.rank, self.name@)
    }
}

/// The views of a list of keys.
pub open spec fn key_views(keys: Seq<SortKey>) -> Seq<(u64, Seq<char>)> {
    keys.map_values(|k: SortKey| k@)
}

pub open spec fn key_lt(a: (u64, Seq<char>), b: (u64, Seq<char>)) -> bool {
    a.0 < b.0 || (a.0 == b.0 && lex_lt(a.1, b.1))
}

/// The rank that puts larger numbers first.
pub open spec fn descending(n: u64) -> u64 {
    (u64::MAX - n) as u64
}

/// Position `a` comes before position `b`: by key, and among equal keys by
/// position.
pub open spec fn before(keys: Seq<(u64, Seq<char>)>, a: int, b: int) -> bool {
    key_lt(keys[a], keys[b]) || (!key_lt(keys[b], keys[a]) && a < b)
}

/// `p` lists every position of `keys` once, in ascending order of the keys,
/// and keeps equal keys in their first order.
pub open spec fn is_stable_order(keys: Seq<(u64, Seq<char>)>, p: Seq<usize>) -> bool {
    &&& p.len() == keys.len()
    &&& forall|i: int| 0 <= i < p.len() ==> (#[trigger] p[i]) < keys.len()
    &&& forall|i: int, j: int|
        0 <= i < j < p.len() ==> before(keys, #[trigger] p[i] as int, #[trigger] p[j] as int)
}

/// `out` holds the items of `input` in the order `p`.
pub open spec fn permuted<T>(input: Seq<T>, p: Seq<usize>, out: Seq<T>) -> bool {
    &&& out.len() == input.len() == p.len()
    &&& forall|i: int| 0 <= i < p.len() ==> #[trigger] out[i] == input[p[i] as int]
}

/// `out` is the stable sort of `input` by `keys`, one key per item.
pub open spec fn is_sorted_copy<T>(
    input: Seq<T>,
    keys: Seq<(u64, Seq<char>)>,
    out: Seq<T>,
) -> bool {
    exists|p: Seq<usize>| is_stable_order(keys, p) && #[trigger] permuted(input, p, out)
}

// --------------------------------------------------------- order of keys --
pub proof fn lemma_key_total(a: (u64, Seq<char>), b: (u64, Seq<char>))
    ensures
        !(key_lt(a, b) && key_lt(b, a)),
        a == b ==> !key_lt(a, b),
        a != b ==> key_lt(a, b) || key_lt(b, a),
{
    lemma_lex_total(a.1, b.1);
}

proof fn lemma_key_trans(a: (u64, Seq<char>), b: (u64, Seq<char>), c: (u64, Seq<char>))
    requires
        !key_lt(b, a),
        !key_lt(c, b),
    ensures
        !key_lt(c, a),
        key_lt(a, b) || key_lt(b, c) ==> key_lt(a, c),
{
    lemma_key_total(a, b);
    lemma_key_total(b, c);
    lemma_key_total(a, c);
    if a != b && b != c && a.0 == b.0 && b.0 == c.0 {
        lemma_lex_trans(a.1, b.1, c.1);
    }
}

proof fn lemma_before_trans(keys: Seq<(u64, Seq<char>)>, a: int, b: int, c: int)
    requires
        before(keys, a, b),
        before(keys, b, c),
    ensures
        before(keys, a, c),
{
    lemma_key_total(keys[a], keys[b]);
    lemma_key_total(keys[b], keys[c]);
    lemma_key_total(keys[a], keys[c]);
    lemma_key_trans(keys[a], keys[b], keys[c]);
}

proof fn lemma_before_total(keys: Seq<(u64, Seq<char>)>, a: int, b: int)
    ensures
        !(before(keys, a, b) && before(keys, b, a)),
        a != b ==> before(keys, a, b) || before(keys, b, a),
{
    lemma_key_total(keys[a], keys[b]);
}

// ------------------------------------------------------------ uniqueness --
/// A list of `n` distinct positions below `n` misses none.
pub proof fn lemma_order_covers(keys: Seq<(u64, Seq<char>)>, p: Seq<usize>, x: usize)
    requires
        is_stable_order(keys, p),
        x < keys.len(),
    ensures
        exists|i: int| 0 <= i < p.len() && #[trigger] p[i] == x,
{
    let all = p.map_values(|u: usize| u as int);
    let n = keys.len() as int;
    assert(all.no_duplicates()) by {
        assert forall|i: int, j: int| 0 <= i < all.len() && 0 <= j < all.len() && i != j implies all[i]
            != all[j] by {
            if i < j {
                assert(before(keys, p[i] as int, p[j] as int));
                lemma_before_total(keys, p[i] as int, p[j] as int);
                lemma_key_total(keys[p[i] as int], keys[p[i] as int]);
            } else {
                assert(before(keys, p[j] as int, p[i] as int));
                lemma_key_total(keys[p[i] as int], keys[p[i] as int]);
            }
        }
    }
    all.unique_seq_to_set();
    vstd::set_lib::lemma_int_range(0, n);
    let range = vstd::set_lib::set_int_range(0, n);
    assert(all.to_set().subset_of(range)) by {
        assert forall|v: int| all.to_set().contains(v) implies range.contains(v) by {
            let i = choose|i: int| 0 <= i < all.len() && all[i] == v;
            assert(p[i] < keys.len());
        }
    }
    vstd::set_lib::lemma_subset_equality(all.to_set(), range);
    assert(all.to_set().contains(x as int));
    let i = choose|i: int| 0 <= i < all.len() && all[i] == x as int;
    assert(p[i] == x);
}

proof fn lemma_orders_agree(
    keys: Seq<(u64, Seq<char>)>,
    p: Seq<usize>,
    q: Seq<usize>,
    k: int,
)
    requires
        is_stable_order(keys, p),
        is_stable_order(keys, q),
        0 <= k <= keys.len(),
    ensures
        p.take(k) == q.take(k),
    decreases k,
{
    if k > 0 {
        lemma_orders_agree(keys, p, q, k - 1);
        let a = p[k - 1];
        let b = q[k - 1];
        lemma_order_covers(keys, q, a);
        lemma_order_covers(keys, p, b);
        let m = choose|i: int| 0 <= i < q.len() && #[trigger] q[i] == a;
        let l = choose|i: int| 0 <= i < p.len() && #[trigger] p[i] == b;
        assert(p.take(k - 1) == q.take(k - 1));
        lemma_key_total(keys[a as int], keys[a as int]);
        lemma_key_total(keys[b as int], keys[b as int]);
        if m < k - 1 {
            assert(p.take(k - 1)[m] == q.take(k - 1)[m]);
            assert(before(keys, p[m] as int, p[k - 1] as int));
        }
        if l < k - 1 {
            assert(p.take(k - 1)[l] == q.take(k - 1)[l]);
            assert(before(keys, q[l] as int, q[k - 1] as int));
        }
        if m > k - 1 && l > k - 1 {
            assert(before(keys, q[k - 1] as int, q[m] as int));
            assert(before(keys, p[k - 1] as int, p[l] as int));
            lemma_before_total(keys, a as int, b as int);
        }
        assert(a == b);
        assert(p.take(k) =~= p.take(k - 1).push(a));
        assert(q.take(k) =~= q.take(k - 1).push(b));
    } else {
        assert(p.take(k) =~= q.take(k));
    }
}

/// Sorting is deterministic: a list and its keys have one stable sort.
pub proof fn law_sort_is_deterministic<T>(
    input: Seq<T>,
    keys: Seq<(u64, Seq<char>)>,
    a: Seq<T>,
    b: Seq<T>,
)
    requires
        is_sorted_copy(input, keys, a),
        is_sorted_copy(input, keys, b),
    ensures
        a == b,
{
    let p = choose|p: Seq<usize>| is_stable_order(keys, p) && #[trigger] permuted(input, p, a);
    let q = choose|q: Seq<usize>| is_stable_order(keys, q) && #[trigger] permuted(input, q, b);
    lemma_orders_agree(keys, p, q, keys.len() as int);
    assert(p.take(keys.len() as int) =~= p);
    assert(q.take(keys.len() as int) =~= q);
    assert(a =~= b);
}

/// Sorting keeps every item as often as it was there.
pub proof fn lemma_permuted_multiset<T>(
    input: Seq<T>,
    keys: Seq<(u64, Seq<char>)>,
    p: Seq<usize>,
    out: Seq<T>,
)
    requires
        is_stable_order(keys, p),
        permuted(input, p, out),
    ensures
        out.to_multiset() == input.to_multiset(),
{
    let f = p.map_values(|u: usize| u as int);
    assert forall|i: int, j: int| 0 <= i < j < f.len() implies #[trigger] f[i] != #[trigger] f[j] by {
        assert(before(keys, p[i] as int, p[j] as int));
        lemma_key_total(keys[p[i] as int], keys[p[i] as int]);
    }
    lemma_reindexed_multiset(input, f, out);
}

/// A sorted copy holds the same items.
pub proof fn lemma_sorted_copy_items<T>(
    input: Seq<T>,
    keys: Seq<(u64, Seq<char>)>,
    out: Seq<T>,
)
    requires
        is_sorted_copy(input, keys, out),
    ensures
        out.to_multiset() == input.to_multiset(),
{
    let p = choose|p: Seq<usize>| is_stable_order(keys, p) && #[trigger] permuted(input, p, out);
    lemma_permuted_multiset(input, keys, p, out);
}

/// A sorted copy by a key of each item is ascending in that key, and holds the
/// items of the list and nothing else.
pub proof fn law_sorted_copy_is_ascending<T>(
    input: Seq<T>,
    key: spec_fn(T) -> (u64, Seq<char>),
    keys: Seq<(u64, Seq<char>)>,
    out: Seq<T>,
)
    requires
        keys.len() == input.len(),
        forall|i: int| 0 <= i < input.len() ==> #[trigger] keys[i] == key(input[i]),
        is_sorted_copy(input, keys, out),
    ensures
        out.len() == input.len(),
        out.to_multiset() == input.to_multiset(),
        forall|i: int, j: int|
            0 <= i < j < out.len() ==> !key_lt(key(#[trigger] out[j]), key(#[trigger] out[i])),
        forall|x: T| #[trigger] out.contains(x) <==> input.contains(x),
{
    broadcast use vstd::seq_lib::group_to_multiset_ensures;

    let p = choose|p: Seq<usize>| is_stable_order(keys, p) && #[trigger] permuted(input, p, out);
    lemma_permuted_multiset(input, keys, p, out);
    assert forall|i: int, j: int| 0 <= i < j < out.len() implies !key_lt(
        key(#[trigger] out[j]),
        key(#[trigger] out[i]),
    ) by {
        let a = p[i] as int;
        let b = p[j] as int;
        assert(before(keys, a, b));
        lemma_key_total(keys[a], keys[b]);
        assert(keys[a] == key(input[a]) && keys[b] == key(input[b]));
    }
    assert forall|x: T| #[trigger] out.contains(x) <==> input.contains(x) by {
        assert(out.to_multiset().count(x) == input.to_multiset().count(x));
    }
}

/// `out[i] == input[f[i]]` for a list `f` of distinct positions covering all.
proof fn lemma_reindexed_multiset<T>(input: Seq<T>, f: Seq<int>, out: Seq<T>)
    requires
        out.len() == input.len() == f.len(),
        forall|i: int| 0 <= i < f.len() ==> 0 <= #[trigger] f[i] < input.len(),
        forall|i: int, j: int| 0 <= i < j < f.len() ==> #[trigger] f[i] != #[trigger] f[j],
        forall|i: int| 0 <= i < f.len() ==> #[trigger] out[i] == input[f[i]],
    ensures
        out.to_multiset() == input.to_multiset(),
    decreases f.len(),
{
    broadcast use vstd::seq_lib::group_to_multiset_ensures;

    if f.len() == 0 {
        assert(out =~= input);
    } else {
        let n = f.len() - 1;
        let at = f[n];
        let rest = input.remove(at);
        let g = f.drop_last().map_values(
            |i: int|
                if i > at {
                    i - 1
                } else {
                    i
                },
        );
        let short = out.drop_last();
        assert forall|i: int| 0 <= i < g.len() implies 0 <= #[trigger] g[i] < rest.len() by {
            assert(f[i] != f[n]);
        }
        assert forall|i: int, j: int| 0 <= i < j < g.len() implies #[trigger] g[i]
            != #[trigger] g[j] by {
            assert(f[i] != f[j]);
            assert(f[i] != f[n] && f[j] != f[n]);
        }
        assert forall|i: int| 0 <= i < g.len() implies #[trigger] short[i] == rest[g[i]] by {
            assert(out[i] == input[f[i]]);
            assert(f[i] != f[n]);
        }
        lemma_reindexed_multiset(rest, g, short);
        assert(out =~= short.push(input[at]));
        vstd::seq_lib::to_multiset_remove(input, at);
        assert(input.to_multiset() =~= rest.to_multiset().insert(input[at]));
        assert(out.to_multiset() =~= short.to_multiset().insert(input[at]));
    }
}

// --------------------------------------------------------------- sorting --
pub fn key_less(a: &SortKey, b: &SortKey) -> (r: bool)
    ensures
        r == key_lt(a@, b@),
{
    a.rank < b.rank || (a.rank == b.rank && less_chars(&a.name, &b.name))
}

/// The rank that puts larger numbers first.
pub fn rank_descending(n: u64) -> (r: u64)
    ensures
        r == descending(n),
{
    u64::MAX - n
}

/// `out` lists distinct positions of `lo..hi` in order.
pub open spec fn ordered_within(
    keys: Seq<(u64, Seq<char>)>,
    out: Seq<usize>,
    lo: int,
    hi: int,
) -> bool {
    &&& forall|i: int| 0 <= i < out.len() ==> lo <= (#[trigger] out[i]) < hi
    &&& forall|i: int, j: int|
        0 <= i < j < out.len() ==> before(keys, #[trigger] out[i] as int, #[trigger] out[j] as int)
}

/// Everything in `out` comes before everything in `rest` from `from` on.
spec fn all_before(
    keys: Seq<(u64, Seq<char>)>,
    out: Seq<usize>,
    rest: Seq<usize>,
    from: int,
) -> bool {
    forall|i: int, j: int|
        0 <= i < out.len() && from <= j < rest.len() ==> before(
            keys,
            #[trigger] out[i] as int,
            #[trigger] rest[j] as int,
        )
}

fn merge(
    keys: &Vec<SortKey>,
    left: &Vec<usize>,
    right: &Vec<usize>,
    lo: usize,
    mid: usize,
    hi: usize,
) -> (r: Vec<usize>)
    requires
        lo <= mid <= hi <= keys@.len(),
        left@.len() == mid - lo,
        right@.len() == hi - mid,
        ordered_within(key_views(keys@), left@, lo as int, mid as int),
        ordered_within(key_views(keys@), right@, mid as int, hi as int),
    ensures
        r@.len() == hi - lo,
        ordered_within(key_views(keys@), r@, lo as int, hi as int),
{
    let ghost kv = key_views(keys@);
    let mut out: Vec<usize> = Vec::new();
    let mut i: usize = 0;
    let mut j: usize = 0;
    while i < left.len() || j < right.len()
        invariant
            kv == key_views(keys@),
            lo <= mid <= hi <= keys@.len(),
            i <= left@.len() == mid - lo,
            j <= right@.len() == hi - mid,
            out@.len() == i + j,
            ordered_within(kv, left@, lo as int, mid as int),
            ordered_within(kv, right@, mid as int, hi as int),
            ordered_within(kv, out@, lo as int, hi as int),
            all_before(kv, out@, left@, i as int),
            all_before(kv, out@, right@, j as int),
        decreases left@.len() - i + right@.len() - j,
    {
        let take_left: bool = if j == right.len() {
            true
        } else if i == left.len() {
            false
        } else {
            !key_less(&keys[right[j]], &keys[left[i]])
        };
        let ghost old_out = out@;
        if take_left {
            let x: usize = left[i];
            proof {
                if j < right@.len() {
                    let y = right@[j as int];
                    assert(kv[x as int] == keys@[x as int]@);
                    assert(kv[y as int] == keys@[y as int]@);
                    assert(before(kv, x as int, y as int));
                    assert forall|m: int| j <= m < right@.len() implies before(
                        kv,
                        x as int,
                        #[trigger] right@[m] as int,
                    ) by {
                        if m > j {
                            lemma_before_trans(kv, x as int, y as int, right@[m] as int);
                        }
                    }
                }
            }
            out.push(x);
            i += 1;
        } else {
            let y: usize = right[j];
            proof {
                if i < left@.len() {
                    let x = left@[i as int];
                    assert(kv[x as int] == keys@[x as int]@);
                    assert(kv[y as int] == keys@[y as int]@);
                    assert(before(kv, y as int, x as int));
                    assert forall|m: int| i <= m < left@.len() implies before(
                        kv,
                        y as int,
                        #[trigger] left@[m] as int,
                    ) by {
                        if m > i {
                            lemma_before_trans(kv, y as int, x as int, left@[m] as int);
                        }
                    }
                }
            }
            out.push(y);
            j += 1;
        }
    }
    out
}

fn sort_range(keys: &Vec<SortKey>, lo: usize, hi: usize) -> (r: Vec<usize>)
    requires
        lo <= hi <= keys@.len(),
    ensures
        r@.len() == hi - lo,
        ordered_within(key_views(keys@), r@, lo as int, hi as int),
    decreases hi - lo,
{
    if hi - lo <= 1 {
        let mut one: Vec<usize> = Vec::new();
        if lo < hi {
            one.push(lo);
        }
        return one;
    }
    let mid: usize = lo + (hi - lo) / 2;
    let left: Vec<usize> = sort_range(keys, lo, mid);
    let right: Vec<usize> = sort_range(keys, mid, hi);
    merge(keys, &left, &right, lo, mid, hi)
}

/// The positions of `keys` in stable ascending order.
pub fn stable_order(keys: &Vec<SortKey>) -> (r: Vec<usize>)
    ensures
        is_stable_order(key_views(keys@), r@),
{
    sort_range(keys, 0, keys.len())
}

/// `input` sorted by `keys`, one key per item.
pub fn sort_by_keys<T>(input: Vec<T>, keys: &Vec<SortKey>) -> (r: Vec<T>)
    requires
        input@.len() == keys@.len(),
    ensures
        is_sorted_copy(input@, key_views(keys@), r@),
{
    let p: Vec<usize> = stable_order(keys);
    let ghost kv = key_views(keys@);
    let out: Vec<T> = permute(input, &p, Ghost(kv));
    assert(permuted(input@, p@, out@));
    out
}

/// The items of `input` in the order `p`.
fn permute<T>(
    input: Vec<T>,
    p: &Vec<usize>,
    Ghost(keys): Ghost<Seq<(u64, Seq<char>)>>,
) -> (r: Vec<T>)
    requires
        is_stable_order(keys, p@),
        keys.len() == input@.len(),
    ensures
        permuted(input@, p@, r@),
{
    let ghost all = input@;
    let n: usize = input.len();
    let mut rest: Vec<T> = input;
    let mut slots: Vec<Option<T>> = Vec::new();
    // Moves the items over, last first, then turns the list round.
    let mut k: usize = n;
    while k > 0
        invariant
            k <= n == all.len(),
            rest@ == all.take(k as int),
            slots@.len() == n - k,
            forall|i: int| 0 <= i < slots@.len() ==> #[trigger] slots@[i] == Some(all[n - 1 - i]),
        decreases k,
    {
        let x: Option<T> = rest.pop();
        slots.push(x);
        k -= 1;
        assert(all.take(k + 1).drop_last() =~= all.take(k as int));
    }
    let mut out: Vec<T> = Vec::new();
    let mut i: usize = 0;
    while i < n
        invariant
            i <= n == all.len() == keys.len(),
            is_stable_order(keys, p@),
            slots@.len() == n,
            out@.len() == i,
            forall|m: int| 0 <= m < i ==> #[trigger] out@[m] == all[p@[m] as int],
            forall|m: int|
                i <= m < n ==> slots@[n - 1 - #[trigger] p@[m]] == Some(all[p@[m] as int]),
        decreases n - i,
    {
        let at: usize = n - 1 - p[i];
        let mut item: Option<T> = None;
        let ghost before_swap = slots@;
        std::mem::swap(&mut item, &mut slots[at]);
        assert(slots@ == before_swap.update(at as int, None));
        proof {
            assert forall|m: int| i + 1 <= m < n implies slots@[n - 1 - #[trigger] p@[m]] == Some(
                all[p@[m] as int],
            ) by {
                assert(before(keys, p@[i as int] as int, p@[m] as int));
                lemma_key_total(keys[p@[m] as int], keys[p@[m] as int]);
                assert(p@[m] != p@[i as int]);
            }
        }
        match item {
            Some(x) => {
                out.push(x);
            },
            None => {},
        }
        i += 1;
    }
    out
}

/// Larger numbers have the smaller rank, and keys are ordered by rank first and by
/// name among equal ranks.
pub proof fn law_larger_numbers_come_first(a: u64, b: u64, x: Seq<char>, y: Seq<char>)
    ensures
        descending(a) < descending(b) <==> a > b,
        descending(a) == descending(b) <==> a == b,
        a > b ==> key_lt((descending(a), x), (descending(b), y)),
        a == b ==> (key_lt((descending(a), x), (descending(b), y)) <==> lex_lt(x, y)),
{
}

} // verus!
