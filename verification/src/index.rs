//! Grouping list positions by a string.
use crate::text::copy;
use vstd::hash_map::StringHashMap;
use vstd::prelude::*;

verus! {

/// The positions at which `keys` holds `k`, ascending.
pub open spec fn positions(keys: Seq<Option<Seq<char>>>, k: Seq<char>) -> Seq<int>
    decreases keys.len(),
{
    if keys.len() == 0 {
        Seq::empty()
    } else {
        let before = positions(keys.drop_last(), k);
        if keys.last() == Some(k) {
            before.push(keys.len() - 1)
        } else {
            before
        }
    }
}

/// The distinct keys, in the order in which they come first.
pub open spec fn distinct_keys(keys: Seq<Option<Seq<char>>>) -> Seq<Seq<char>>
    decreases keys.len(),
{
    if keys.len() == 0 {
        Seq::empty()
    } else {
        let before = distinct_keys(keys.drop_last());
        match keys.last() {
            Some(k) => if before.contains(k) {
                before
            } else {
                before.push(k)
            },
            None => before,
        }
    }
}

/// What `positions` lists: exactly the positions of the key, ascending.
pub proof fn lemma_positions(keys: Seq<Option<Seq<char>>>, k: Seq<char>)
    ensures
        forall|j: int|
            0 <= j < positions(keys, k).len() ==> 0 <= (#[trigger] positions(keys, k)[j])
                < keys.len() && keys[positions(keys, k)[j]] == Some(k),
        forall|i: int, j: int|
            0 <= i < j < positions(keys, k).len() ==> (#[trigger] positions(keys, k)[i])
                < #[trigger] positions(keys, k)[j],
        forall|i: int|
            0 <= i < keys.len() && #[trigger] keys[i] == Some(k) ==> positions(keys, k).contains(i),
        positions(keys, k).len() <= keys.len(),
    decreases keys.len(),
{
    if keys.len() > 0 {
        let short = keys.drop_last();
        lemma_positions(short, k);
        let before = positions(short, k);
        let now = positions(keys, k);
        assert forall|i: int| 0 <= i < keys.len() && #[trigger] keys[i] == Some(k) implies now.contains(
            i,
        ) by {
            if i < short.len() {
                assert(short[i] == keys[i]);
                assert(before.contains(i));
                let j = choose|j: int| 0 <= j < before.len() && before[j] == i;
                assert(now[j] == i);
            } else {
                assert(now[before.len() as int] == i);
            }
        }
        assert forall|j: int| 0 <= j < now.len() implies 0 <= (#[trigger] now[j]) < keys.len()
            && keys[now[j]] == Some(k) by {
            if j < before.len() {
                assert(now[j] == before[j]);
                assert(short[before[j]] == keys[before[j]]);
            }
        }
        assert forall|i: int, j: int| 0 <= i < j < now.len() implies (#[trigger] now[i])
            < #[trigger] now[j] by {
            assert(now[i] == before[i]);
            if j < before.len() {
                assert(now[j] == before[j]);
            }
        }
    }
}

/// The items at the positions of a key are the items with that key.
pub proof fn lemma_positions_filter<T>(
    items: Seq<T>,
    keys: Seq<Option<Seq<char>>>,
    k: Seq<char>,
    p: spec_fn(T) -> bool,
)
    requires
        keys.len() == items.len(),
        forall|i: int| 0 <= i < items.len() ==> p(#[trigger] items[i]) == (keys[i] == Some(k)),
    ensures
        items.filter(p) == positions(keys, k).map_values(|i: int| items[i]),
    decreases items.len(),
{
    reveal(Seq::filter);
    let pos = positions(keys, k);
    if items.len() == 0 {
        assert(items.filter(p) =~= pos.map_values(|i: int| items[i]));
    } else {
        let short = items.drop_last();
        let ks = keys.drop_last();
        assert forall|i: int| 0 <= i < short.len() implies p(#[trigger] short[i]) == (ks[i] == Some(
            k,
        )) by {
            assert(short[i] == items[i]);
        }
        lemma_positions_filter(short, ks, k, p);
        lemma_positions(ks, k);
        let before = positions(ks, k);
        assert(before.map_values(|i: int| short[i]) =~= before.map_values(|i: int| items[i]));
        assert(items.last() == items[items.len() - 1]);
        assert(items.filter(p) =~= pos.map_values(|i: int| items[i]));
    }
}

/// The distinct keys are distinct, and none is missing.
pub proof fn lemma_distinct_keys(keys: Seq<Option<Seq<char>>>)
    ensures
        distinct_keys(keys).no_duplicates(),
        forall|k: Seq<char>| #[trigger]
            distinct_keys(keys).contains(k) <==> keys.contains(Some(k)),
    decreases keys.len(),
{
    if keys.len() > 0 {
        let short = keys.drop_last();
        lemma_distinct_keys(short);
        let before = distinct_keys(short);
        let now = distinct_keys(keys);
        assert forall|k: Seq<char>| #[trigger] now.contains(k) <==> keys.contains(Some(k)) by {
            if keys.contains(Some(k)) {
                let i = choose|i: int| 0 <= i < keys.len() && keys[i] == Some(k);
                if i < short.len() {
                    assert(short[i] == Some(k));
                    assert(before.contains(k));
                }
                if before.contains(k) {
                    let j = choose|j: int| 0 <= j < before.len() && before[j] == k;
                    assert(now[j] == k);
                } else {
                    assert(now[before.len() as int] == k);
                }
            }
            if now.contains(k) {
                let j = choose|j: int| 0 <= j < now.len() && now[j] == k;
                if j < before.len() {
                    assert(before.contains(k));
                    let i = choose|i: int| 0 <= i < short.len() && short[i] == Some(k);
                    assert(keys[i] == Some(k));
                } else {
                    assert(keys[keys.len() - 1] == Some(k));
                }
            }
        }
    }
}

/// Positions grouped by key.
pub struct Index {
    slots: StringHashMap<usize>,
    names: Vec<String>,
    groups: Vec<Vec<usize>>,
    count: usize,
    keys: Ghost<Seq<Option<Seq<char>>>>,
}

/// Machine positions as numbers.
pub open spec fn as_ints(v: Seq<usize>) -> Seq<int> {
    v.map_values(|u: usize| u as int)
}

impl Index {
    /// The keys added so far, one per position.
    pub closed spec fn keys(&self) -> Seq<Option<Seq<char>>> {
        self.keys@
    }

    pub closed spec fn wf(&self) -> bool {
        &&& self.count == self.keys@.len()
        &&& self.names@.len() == self.groups@.len()
        &&& crate::text::views(self.names@) == distinct_keys(self.keys@)
        &&& forall|s: int|
            0 <= s < self.names@.len() ==> as_ints((#[trigger] self.groups@[s])@) == positions(
                self.keys@,
                self.names@[s]@,
            )
        &&& forall|k: Seq<char>| #[trigger]
            self.slots@.dom().contains(k) ==> self.slots@[k] < self.names@.len()
                && self.names@[self.slots@[k] as int]@ == k
        &&& forall|k: Seq<char>| #[trigger]
            distinct_keys(self.keys@).contains(k) ==> self.slots@.dom().contains(k)
    }

    pub fn new() -> (r: Self)
        ensures
            r.wf(),
            r.keys() == Seq::<Option<Seq<char>>>::empty(),
    {
        let r: Index = Index {
            slots: StringHashMap::new(),
            names: Vec::new(),
            groups: Vec::new(),
            count: 0,
            keys: Ghost(Seq::empty()),
        };
        assert(crate::text::views(r.names@) =~= distinct_keys(r.keys@));
        r
    }

    /// Adds one position, with or without a key.
    pub fn add(&mut self, key: Option<&str>)
        requires
            old(self).wf(),
            old(self).keys().len() < usize::MAX,
        ensures
            final(self).wf(),
            final(self).keys() == old(self).keys().push(
                match key {
                    Some(k) => Some(k@),
                    None => None,
                },
            ),
    {
        let ghost keys0 = self.keys@;
        let ghost kv = match key {
            Some(k) => Some(k@),
            None => None,
        };
        let ghost keys1 = keys0.push(kv);
        let ghost names0 = self.names@;
        let ghost groups0 = self.groups@;
        let ghost slots0 = self.slots@;
        let n: usize = self.count;
        proof {
            assert(keys1.drop_last() =~= keys0);
            lemma_distinct_keys(keys0);
            lemma_distinct_keys(keys1);
        }
        match key {
            None => {
                proof {
                    assert forall|s: int| 0 <= s < names0.len() implies as_ints(
                        (#[trigger] groups0[s])@,
                    ) == positions(keys1, names0[s]@) by {}
                }
            },
            Some(k) => {
                let found: Option<usize> = match self.slots.get(k) {
                    Some(s) => Some(*s),
                    None => None,
                };
                match found {
                    Some(s) => {
                        let mut group: Vec<usize> = Vec::new();
                        std::mem::swap(&mut group, &mut self.groups[s]);
                        let ghost g0 = group@;
                        group.push(n);
                        assert(as_ints(group@) =~= as_ints(g0).push(n as int));
                        std::mem::swap(&mut group, &mut self.groups[s]);
                        proof {
                            assert(self.names@[s as int]@ == k@);
                            assert(crate::text::views(names0)[s as int] == k@);
                            assert(distinct_keys(keys0).contains(k@));
                            assert forall|t: int| 0 <= t < names0.len() implies as_ints(
                                (#[trigger] self.groups@[t])@,
                            ) == positions(keys1, names0[t]@) by {
                                if t != s {
                                    assert(crate::text::views(names0)[t] != crate::text::views(
                                        names0,
                                    )[s as int]);
                                    assert(self.groups@[t] == groups0[t]);
                                }
                            }
                        }
                    },
                    None => {
                        let slot: usize = self.names.len();
                        let mut group: Vec<usize> = Vec::new();
                        group.push(n);
                        let ghost gv = group@;
                        self.names.push(copy(k));
                        self.groups.push(group);
                        self.slots.insert(copy(k), slot);
                        proof {
                            assert(!distinct_keys(keys0).contains(k@));
                            assert(crate::text::views(self.names@) =~= crate::text::views(
                                names0,
                            ).push(k@));
                            lemma_positions(keys0, k@);
                            assert(positions(keys0, k@).len() == 0) by {
                                if positions(keys0, k@).len() > 0 {
                                    let i = positions(keys0, k@)[0];
                                    assert(keys0[i] == Some(k@));
                                    assert(keys0.contains(Some(k@)));
                                }
                            }
                            assert(as_ints(gv) =~= positions(keys1, k@));
                            assert forall|t: int| 0 <= t < self.names@.len() implies as_ints(
                                (#[trigger] self.groups@[t])@,
                            ) == positions(keys1, self.names@[t]@) by {
                                if t < names0.len() {
                                    assert(self.groups@[t] == groups0[t]);
                                    assert(self.names@[t] == names0[t]);
                                    assert(crate::text::views(names0)[t] == names0[t]@);
                                    assert(distinct_keys(keys0).contains(names0[t]@));
                                }
                            }
                        }
                    },
                }
            },
        }
        self.count = n + 1;
        self.keys = Ghost(keys1);
        proof {
            assert(crate::text::views(self.names@) =~= distinct_keys(keys1));
            assert forall|s: int| 0 <= s < self.names@.len() implies as_ints(
                (#[trigger] self.groups@[s])@,
            ) == positions(keys1, self.names@[s]@) by {}
            assert forall|k: Seq<char>| #[trigger] self.slots@.dom().contains(k) implies self.slots@[k]
                < self.names@.len() && self.names@[self.slots@[k] as int]@ == k by {
                if slots0.dom().contains(k) && self.slots@[k] == slots0[k] {
                    assert(self.names@[slots0[k] as int] == names0[slots0[k] as int]);
                }
            }
            assert forall|k: Seq<char>| #[trigger]
                distinct_keys(keys1).contains(k) implies self.slots@.dom().contains(k) by {
                if distinct_keys(keys0).contains(k) {
                    assert(slots0.dom().contains(k));
                } else {
                    assert(keys1.contains(Some(k)));
                    let i = choose|i: int| 0 <= i < keys1.len() && keys1[i] == Some(k);
                    if i < keys0.len() {
                        assert(keys0[i] == Some(k));
                        assert(keys0.contains(Some(k)));
                    }
                }
            }
        }
    }

    /// The positions of a key, ascending; none where it was never added.
    pub fn find(&self, key: &str) -> (r: Vec<usize>)
        requires
            self.wf(),
        ensures
            as_ints(r@) == positions(self.keys(), key@),
    {
        match self.slots.get(key) {
            Some(s) => self.group(*s),
            None => {
                let none: Vec<usize> = Vec::new();
                proof {
                    lemma_distinct_keys(self.keys@);
                    lemma_positions(self.keys@, key@);
                    if positions(self.keys@, key@).len() > 0 {
                        let i = positions(self.keys@, key@)[0];
                        assert(self.keys@[i] == Some(key@));
                        assert(self.keys@.contains(Some(key@)));
                        assert(distinct_keys(self.keys@).contains(key@));
                    }
                    assert(as_ints(none@) =~= positions(self.keys@, key@));
                }
                none
            },
        }
    }

    /// How many distinct keys there are.
    pub fn len(&self) -> (r: usize)
        requires
            self.wf(),
        ensures
            r == distinct_keys(self.keys()).len(),
    {
        assert(crate::text::views(self.names@).len() == self.names@.len());
        self.names.len()
    }

    /// The distinct keys in the order in which they came first.
    pub fn name(&self, s: usize) -> (r: String)
        requires
            self.wf(),
            s < distinct_keys(self.keys()).len(),
        ensures
            r@ == distinct_keys(self.keys())[s as int],
    {
        assert(crate::text::views(self.names@)[s as int] == self.names@[s as int]@);
        self.names[s].clone()
    }

    /// The positions of the key with the given number.
    pub fn group(&self, s: usize) -> (r: Vec<usize>)
        requires
            self.wf(),
            s < distinct_keys(self.keys()).len(),
        ensures
            as_ints(r@) == positions(self.keys(), distinct_keys(self.keys())[s as int]),
    {
        assert(crate::text::views(self.names@)[s as int] == self.names@[s as int]@);
        let g: &Vec<usize> = &self.groups[s];
        let mut out: Vec<usize> = Vec::new();
        let mut i: usize = 0;
        while i < g.len()
            invariant
                i <= g@.len(),
                out@ == g@.take(i as int),
            decreases g@.len() - i,
        {
            out.push(g[i]);
            i += 1;
            assert(g@.take(i as int) =~= g@.take(i - 1).push(g@[i - 1]));
        }
        assert(g@.take(i as int) =~= g@);
        out
    }
}

} // verus!
