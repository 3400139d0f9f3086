//! Counting items and adding up their sizes, by name.
use crate::lists::{lemma_sum_push, sum};
use crate::text::{copy, views};
use vstd::hash_map::StringHashMap;
use vstd::prelude::*;

verus! {

/// The names in the order in which they come first.
pub open spec fn tally_names(entries: Seq<(Seq<char>, u64)>) -> Seq<Seq<char>>
    decreases entries.len(),
{
    if entries.len() == 0 {
        Seq::empty()
    } else {
        let before = tally_names(entries.drop_last());
        if before.contains(entries.last().0) {
            before
        } else {
            before.push(entries.last().0)
        }
    }
}

/// How many entries have the name.
pub open spec fn tally_count(entries: Seq<(Seq<char>, u64)>, name: Seq<char>) -> nat
    decreases entries.len(),
{
    if entries.len() == 0 {
        0
    } else {
        tally_count(entries.drop_last(), name) + if entries.last().0 == name {
            1nat
        } else {
            0nat
        }
    }
}

/// The sum of the sizes of the entries with the name.
pub open spec fn tally_bytes(entries: Seq<(Seq<char>, u64)>, name: Seq<char>) -> nat
    decreases entries.len(),
{
    if entries.len() == 0 {
        0
    } else {
        tally_bytes(entries.drop_last(), name) + if entries.last().0 == name {
            entries.last().1 as nat
        } else {
            0nat
        }
    }
}

/// Names are listed once, exactly those that occur.
pub proof fn lemma_tally_names(entries: Seq<(Seq<char>, u64)>)
    ensures
        tally_names(entries).no_duplicates(),
        forall|k: Seq<char>| #[trigger]
            tally_names(entries).contains(k) <==> tally_count(entries, k) > 0,
    decreases entries.len(),
{
    if entries.len() > 0 {
        let short = entries.drop_last();
        lemma_tally_names(short);
        let before = tally_names(short);
        let now = tally_names(entries);
        let last = entries.last().0;
        assert forall|k: Seq<char>| #[trigger] now.contains(k) <==> tally_count(entries, k) > 0 by {
            if before.contains(k) {
                let i = choose|i: int| 0 <= i < before.len() && before[i] == k;
                assert(now[i] == k);
            }
            if k == last && !before.contains(k) {
                assert(now[before.len() as int] == k);
            }
            if now.contains(k) && !before.contains(k) {
                let i = choose|i: int| 0 <= i < now.len() && now[i] == k;
                if i < before.len() {
                    assert(before[i] == k);
                }
            }
        }
    }
}

/// Without an entry there is nothing to add up.
pub proof fn lemma_tally_absent(entries: Seq<(Seq<char>, u64)>, name: Seq<char>)
    requires
        tally_count(entries, name) == 0,
    ensures
        tally_bytes(entries, name) == 0,
    decreases entries.len(),
{
    if entries.len() > 0 {
        lemma_tally_absent(entries.drop_last(), name);
    }
}

/// Running counts and sums.
pub struct Tally {
    slots: StringHashMap<usize>,
    names: Vec<String>,
    counts: Vec<u64>,
    sums: Vec<u64>,
    entries: Ghost<Seq<(Seq<char>, u64)>>,
}

impl Tally {
    /// The entries added so far.
    pub closed spec fn entries(&self) -> Seq<(Seq<char>, u64)> {
        self.entries@
    }

    pub closed spec fn wf(&self) -> bool {
        &&& self.names@.len() == self.counts@.len() == self.sums@.len()
        &&& views(self.names@) == tally_names(self.entries@)
        &&& forall|s: int|
            0 <= s < self.names@.len() ==> #[trigger] self.counts@[s] == tally_count(
                self.entries@,
                self.names@[s]@,
            )
        &&& forall|s: int|
            0 <= s < self.names@.len() ==> #[trigger] self.sums@[s] == tally_bytes(
                self.entries@,
                self.names@[s]@,
            )
        &&& forall|k: Seq<char>| #[trigger]
            self.slots@.dom().contains(k) ==> self.slots@[k] < self.names@.len()
                && self.names@[self.slots@[k] as int]@ == k
        &&& forall|k: Seq<char>| #[trigger]
            tally_names(self.entries@).contains(k) ==> self.slots@.dom().contains(k)
    }

    pub fn new() -> (r: Self)
        ensures
            r.wf(),
            r.entries() == Seq::<(Seq<char>, u64)>::empty(),
    {
        let r: Tally = Tally {
            slots: StringHashMap::new(),
            names: Vec::new(),
            counts: Vec::new(),
            sums: Vec::new(),
            entries: Ghost(Seq::empty()),
        };
        assert(views(r.names@) =~= tally_names(r.entries@));
        r
    }

    /// Adds one entry.
    pub fn add(&mut self, name: &str, size: u64)
        requires
            old(self).wf(),
            tally_count(old(self).entries(), name@) < u64::MAX,
            tally_bytes(old(self).entries(), name@) + size <= u64::MAX,
        ensures
            final(self).wf(),
            final(self).entries() == old(self).entries().push((name@, size)),
    {
        let ghost e0 = self.entries@;
        let ghost e1 = e0.push((name@, size));
        let ghost names0 = self.names@;
        let ghost slots0 = self.slots@;
        let ghost counts0 = self.counts@;
        let ghost sums0 = self.sums@;
        proof {
            assert(e1.drop_last() =~= e0);
            lemma_tally_names(e0);
            lemma_tally_names(e1);
        }
        let found: Option<usize> = match self.slots.get(name) {
            Some(s) => Some(*s),
            None => None,
        };
        match found {
            Some(s) => {
                proof {
                    assert(views(names0)[s as int] == name@);
                    assert(tally_names(e0).contains(name@));
                    assert(self.counts@[s as int] == tally_count(e0, name@));
                    assert(self.sums@[s as int] == tally_bytes(e0, name@));
                    assert forall|t: int| 0 <= t < names0.len() && t != s implies names0[t]@
                        != name@ by {
                        assert(views(names0)[t] != views(names0)[s as int]);
                    }
                }
                let c: u64 = self.counts[s] + 1;
                let b: u64 = self.sums[s] + size;
                self.counts.set(s, c);
                self.sums.set(s, b);
                proof {
                    assert forall|t: int| 0 <= t < names0.len() implies #[trigger] self.counts@[t]
                        == tally_count(e1, names0[t]@) by {
                        assert(counts0[t] == tally_count(e0, names0[t]@));
                    }
                    assert forall|t: int| 0 <= t < names0.len() implies #[trigger] self.sums@[t]
                        == tally_bytes(e1, names0[t]@) by {
                        assert(sums0[t] == tally_bytes(e0, names0[t]@));
                    }
                }
            },
            None => {
                let slot: usize = self.names.len();
                self.names.push(copy(name));
                self.counts.push(1);
                self.sums.push(size);
                self.slots.insert(copy(name), slot);
                proof {
                    assert(!tally_names(e0).contains(name@));
                    lemma_tally_absent(e0, name@);
                    assert(views(self.names@) =~= views(names0).push(name@));
                    assert forall|t: int| 0 <= t < self.names@.len() implies #[trigger] self.counts@[t]
                        == tally_count(e1, self.names@[t]@) by {
                        if t < names0.len() {
                            assert(counts0[t] == tally_count(e0, names0[t]@));
                            assert(views(names0)[t] == names0[t]@);
                            assert(tally_names(e0).contains(names0[t]@));
                        }
                    }
                    assert forall|t: int| 0 <= t < self.names@.len() implies #[trigger] self.sums@[t]
                        == tally_bytes(e1, self.names@[t]@) by {
                        if t < names0.len() {
                            assert(sums0[t] == tally_bytes(e0, names0[t]@));
                            assert(views(names0)[t] == names0[t]@);
                            assert(tally_names(e0).contains(names0[t]@));
                        }
                    }
                }
            },
        }
        self.entries = Ghost(e1);
        proof {
            assert(views(self.names@) =~= tally_names(e1));
            assert forall|k: Seq<char>| #[trigger] self.slots@.dom().contains(k) implies self.slots@[k]
                < self.names@.len() && self.names@[self.slots@[k] as int]@ == k by {
                if slots0.dom().contains(k) && self.slots@[k] == slots0[k] {
                    assert(self.names@[slots0[k] as int] == names0[slots0[k] as int]);
                }
            }
            assert forall|k: Seq<char>| #[trigger]
                tally_names(e1).contains(k) implies self.slots@.dom().contains(k) by {
                if tally_names(e0).contains(k) {
                    assert(slots0.dom().contains(k));
                }
            }
        }
    }

    /// How many names there are.
    pub fn len(&self) -> (r: usize)
        requires
            self.wf(),
        ensures
            r == tally_names(self.entries()).len(),
    {
        assert(views(self.names@).len() == self.names@.len());
        self.names.len()
    }

    /// The name with the given number, its count and its sum.
    pub fn get(&self, s: usize) -> (r: (String, u64, u64))
        requires
            self.wf(),
            s < tally_names(self.entries()).len(),
        ensures
            r.0@ == tally_names(self.entries())[s as int],
            r.1 == tally_count(self.entries(), r.0@),
            r.2 == tally_bytes(self.entries(), r.0@),
    {
        assert(views(self.names@)[s as int] == self.names@[s as int]@);
        (self.names[s].clone(), self.counts[s], self.sums[s])
    }
}

/// The sums of all names.
pub open spec fn name_bytes(entries: Seq<(Seq<char>, u64)>) -> spec_fn(Seq<char>) -> nat {
    |k: Seq<char>| tally_bytes(entries, k)
}

/// The counts of all names.
pub open spec fn name_count(entries: Seq<(Seq<char>, u64)>) -> spec_fn(Seq<char>) -> nat {
    |k: Seq<char>| tally_count(entries, k)
}

pub open spec fn entry_size() -> spec_fn((Seq<char>, u64)) -> nat {
    |e: (Seq<char>, u64)| e.1 as nat
}

proof fn lemma_names_shift(
    names: Seq<Seq<char>>,
    before: Seq<(Seq<char>, u64)>,
    now: Seq<(Seq<char>, u64)>,
)
    requires
        now.len() > 0,
        now.drop_last() == before,
        names.no_duplicates(),
    ensures
        sum(names, name_bytes(now)) == sum(names, name_bytes(before)) + if names.contains(
            now.last().0,
        ) {
            now.last().1 as nat
        } else {
            0nat
        },
        sum(names, name_count(now)) == sum(names, name_count(before)) + if names.contains(
            now.last().0,
        ) {
            1nat
        } else {
            0nat
        },
    decreases names.len(),
{
    if names.len() > 0 {
        let short = names.drop_last();
        let k = now.last().0;
        assert(short.no_duplicates()) by {
            assert forall|i: int, j: int| 0 <= i < short.len() && 0 <= j < short.len() && i != j implies short[i]
                != short[j] by {
                assert(names[i] != names[j]);
            }
        }
        lemma_names_shift(short, before, now);
        if names.last() == k {
            if short.contains(k) {
                let i = choose|i: int| 0 <= i < short.len() && short[i] == k;
                assert(names[i] != names[names.len() - 1]);
            }
            assert(names[names.len() - 1] == k);
        } else if names.contains(k) {
            let i = choose|i: int| 0 <= i < names.len() && names[i] == k;
            assert(short[i] == k);
        } else if short.contains(k) {
            let i = choose|i: int| 0 <= i < short.len() && short[i] == k;
            assert(names[i] == k);
        }
    }
}

/// Nothing is lost or counted twice: over all names, counts add up to the
/// number of entries and sums to the sum of all sizes.
pub proof fn law_tally_adds_up(entries: Seq<(Seq<char>, u64)>)
    ensures
        sum(tally_names(entries), name_count(entries)) == entries.len(),
        sum(tally_names(entries), name_bytes(entries)) == sum(entries, entry_size()),
    decreases entries.len(),
{
    if entries.len() > 0 {
        let before = entries.drop_last();
        let k = entries.last().0;
        law_tally_adds_up(before);
        lemma_tally_names(before);
        let names = tally_names(before);
        lemma_names_shift(names, before, entries);
        if !names.contains(k) {
            lemma_sum_push(names, name_bytes(entries), k);
            lemma_sum_push(names, name_count(entries), k);
            lemma_tally_absent(before, k);
        }
    }
}

} // verus!
