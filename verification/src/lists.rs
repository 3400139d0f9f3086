//! Filtering and adding up, as lists are walked from the front.
use vstd::prelude::*;

verus! {

/// Filtering one item more.
pub proof fn lemma_filter_take<T>(s: Seq<T>, p: spec_fn(T) -> bool, i: int)
    requires
        0 <= i < s.len(),
    ensures
        s.take(i + 1).filter(p) == if p(s[i]) {
            s.take(i).filter(p).push(s[i])
        } else {
            s.take(i).filter(p)
        },
{
    reveal(Seq::filter);
    assert(s.take(i + 1).drop_last() =~= s.take(i));
}

/// Filtering nothing, and filtering all.
pub proof fn lemma_filter_ends<T>(s: Seq<T>, p: spec_fn(T) -> bool)
    ensures
        s.take(0).filter(p) == Seq::<T>::empty(),
        s.take(s.len() as int) == s,
        s.filter(p).len() <= s.len(),
        forall|i: int| 0 <= i < s.filter(p).len() ==> p(#[trigger] s.filter(p)[i]),
    decreases s.len(),
{
    reveal(Seq::filter);
    assert(s.take(0).filter(p) =~= Seq::empty());
    assert(s.take(s.len() as int) =~= s);
    if s.len() > 0 {
        lemma_filter_ends(s.drop_last(), p);
    }
}

/// The sum of `f` over a list.
pub open spec fn sum<T>(s: Seq<T>, f: spec_fn(T) -> nat) -> nat
    decreases s.len(),
{
    if s.len() == 0 {
        0
    } else {
        sum(s.drop_last(), f) + f(s.last())
    }
}

/// Adding one item more.
pub proof fn lemma_sum_take<T>(s: Seq<T>, f: spec_fn(T) -> nat, i: int)
    requires
        0 <= i < s.len(),
    ensures
        sum(s.take(i + 1), f) == sum(s.take(i), f) + f(s[i]),
        sum(s.take(i + 1), f) <= sum(s, f),
    decreases s.len() - i,
{
    assert(s.take(i + 1).drop_last() =~= s.take(i));
    if i + 1 < s.len() {
        lemma_sum_take(s, f, i + 1);
    } else {
        assert(s.take(i + 1) =~= s);
    }
}

pub proof fn lemma_sum_push<T>(s: Seq<T>, f: spec_fn(T) -> nat, x: T)
    ensures
        sum(s.push(x), f) == sum(s, f) + f(x),
{
    assert(s.push(x).drop_last() =~= s);
}

/// The sum over what a filter keeps of a prefix is at most that of the whole.
pub proof fn lemma_filter_sum_prefix<T>(
    s: Seq<T>,
    p: spec_fn(T) -> bool,
    f: spec_fn(T) -> nat,
    i: int,
)
    requires
        0 <= i <= s.len(),
    ensures
        sum(s.take(i).filter(p), f) <= sum(s.filter(p), f),
    decreases s.len() - i,
{
    if i < s.len() {
        lemma_filter_take(s, p, i);
        lemma_filter_sum_prefix(s, p, f, i + 1);
        if p(s[i]) {
            lemma_sum_push(s.take(i).filter(p), f, s[i]);
        }
    } else {
        assert(s.take(i) =~= s);
    }
}

/// What a filter keeps was there and passes.
pub proof fn lemma_filter_member<T>(s: Seq<T>, p: spec_fn(T) -> bool, j: int)
    requires
        0 <= j < s.filter(p).len(),
    ensures
        p(s.filter(p)[j]),
        exists|k: int| 0 <= k < s.len() && #[trigger] s[k] == s.filter(p)[j],
    decreases s.len(),
{
    reveal(Seq::filter);
    if s.len() > 0 {
        let short = s.drop_last();
        if j < short.filter(p).len() {
            lemma_filter_member(short, p, j);
            let k = choose|k: int| 0 <= k < short.len() && #[trigger] short[k] == short.filter(p)[j];
            assert(s[k] == short[k]);
        } else {
            assert(s[s.len() - 1] == s.filter(p)[j]);
        }
    }
}

/// A sum is 0 for an empty list, and grows by what is added to the list.
pub proof fn law_sums_grow_by_what_is_added<T>(s: Seq<T>, x: T, f: spec_fn(T) -> nat)
    ensures
        sum(Seq::<T>::empty(), f) == 0,
        sum(s.push(x), f) == sum(s, f) + f(x),
{
    assert(s.push(x).drop_last() =~= s);
}

} // verus!
