//! Environment variables as plain values.
//!
//! Which names the system takes for the same is its own affair (Windows ignores
//! the case of letters, by a table of its own). So the system is asked for each
//! name in the spelling in which a text uses it, and an `Env` holds its answers.
use crate::text::{chars_of, same, string_of, views};
use vstd::prelude::*;

verus! {

/// The variables that the system was asked for and that are set: each name as
/// it was asked for, with its value.
pub struct Env {
    pub vars: Vec<(String, String)>,
}

impl Env {
    /// The value of the first of the variables `from..` with this name.
    pub open spec fn value_from(&self, name: Seq<char>, from: int) -> Option<Seq<char>>
        decreases self.vars@.len() - from,
    {
        if from < 0 || from >= self.vars@.len() {
            None
        } else if self.vars@[from].0@ == name {
            Some(self.vars@[from].1@)
        } else {
            self.value_from(name, from + 1)
        }
    }

    /// The value of a variable.
    pub open spec fn value(&self, name: Seq<char>) -> Option<Seq<char>> {
        self.value_from(name, 0)
    }

    /// Looks a variable up.
    pub fn get(&self, name: &str) -> (r: Option<&String>)
        ensures
            match r {
                Some(v) => self.value(name@) == Some(v@),
                None => self.value(name@) is None,
            },
    {
        let mut i: usize = 0;
        while i < self.vars.len()
            invariant
                i <= self.vars@.len(),
                self.value(name@) == self.value_from(name@, i as int),
            decreases self.vars@.len() - i,
        {
            if same(self.vars[i].0.as_str(), name) {
                return Some(&self.vars[i].1);
            }
            i += 1;
        }
        None
    }
}

// ---------------------------------------------------------- names in texts --
/// The last `%` among the first `n` characters.
pub open spec fn last_percent(s: Seq<char>, n: int) -> Option<int>
    decreases n,
{
    if n <= 0 {
        None
    } else if s[n - 1] == '%' {
        Some(n - 1)
    } else {
        last_percent(s, n - 1)
    }
}

/// What stands between each `%` among the first `n` characters and the next one.
pub open spec fn names_before(s: Seq<char>, n: int) -> Seq<Seq<char>>
    decreases n,
{
    if n <= 0 {
        Seq::empty()
    } else {
        match last_percent(s, n - 1) {
            Some(i) if s[n - 1] == '%' => names_before(s, n - 1).push(s.subrange(i + 1, n - 1)),
            _ => names_before(s, n - 1),
        }
    }
}

/// The names that the placeholders of a text can have.
pub open spec fn names_in(s: Seq<char>) -> Seq<Seq<char>> {
    names_before(s, s.len() as int)
}

/// The variables to ask the system for before a text is expanded.
pub fn variables_in(s: &str) -> (r: Vec<String>)
    ensures
        views(r@) == names_in(s@),
{
    let cs: Vec<char> = chars_of(s);
    let n: usize = cs.len();
    let mut out: Vec<String> = Vec::new();
    let mut last: Option<usize> = None;
    let mut i: usize = 0;
    assert(views(out@) =~= names_before(s@, 0));
    while i < n
        invariant
            i <= n == cs@.len(),
            cs@ == s@,
            (match last {
                Some(k) => Some(k as int),
                None => None,
            }) == last_percent(s@, i as int),
            last matches Some(k) ==> k < i,
            views(out@) == names_before(s@, i as int),
        decreases n - i,
    {
        if cs[i] == '%' {
            let ghost before = out@;
            match last {
                Some(k) => {
                    let name: String = string_of(&cs, k + 1, i);
                    out.push(name);
                    assert(views(out@) =~= views(before).push(name@));
                },
                None => {},
            }
            last = Some(i);
        }
        i += 1;
    }
    out
}

/// The names in some texts together.
pub open spec fn all_names(texts: Seq<Seq<char>>) -> Seq<Seq<char>>
    decreases texts.len(),
{
    if texts.len() == 0 {
        Seq::empty()
    } else {
        all_names(texts.drop_last()) + names_in(texts.last())
    }
}

/// The variables to ask the system for before some texts are expanded.
pub fn variables_in_all(texts: &Vec<String>) -> (r: Vec<String>)
    ensures
        views(r@) == all_names(views(texts@)),
{
    let ghost all = views(texts@);
    let mut out: Vec<String> = Vec::new();
    let mut i: usize = 0;
    assert(views(out@) =~= all_names(all.take(0)));
    while i < texts.len()
        invariant
            i <= texts@.len(),
            all == views(texts@),
            views(out@) == all_names(all.take(i as int)),
        decreases texts@.len() - i,
    {
        let mut more: Vec<String> = variables_in(texts[i].as_str());
        let ghost a = out@;
        let ghost b = more@;
        out.append(&mut more);
        assert(views(out@) =~= views(a) + views(b));
        i += 1;
        assert(all.take(i as int).drop_last() =~= all.take(i - 1));
        assert(all.take(i as int).last() == all[i - 1]);
    }
    assert(all.take(i as int) =~= all);
    out
}

/// Two `%` that follow one another.
pub open spec fn encloses(s: Seq<char>, i: int, j: int) -> bool {
    &&& 0 <= i < j < s.len()
    &&& s[i] == '%'
    &&& s[j] == '%'
    &&& forall|k: int| i < k < j ==> #[trigger] s[k] != '%'
}

proof fn lemma_last_percent(s: Seq<char>, n: int)
    requires
        0 <= n <= s.len(),
    ensures
        match last_percent(s, n) {
            Some(i) => 0 <= i < n && s[i] == '%' && forall|k: int|
                i < k < n ==> #[trigger] s[k] != '%',
            None => forall|k: int| 0 <= k < n ==> #[trigger] s[k] != '%',
        },
    decreases n,
{
    if n > 0 && s[n - 1] != '%' {
        lemma_last_percent(s, n - 1);
    }
}

/// The names of a text are what stands between two `%` that follow one another.
pub proof fn lemma_names_in(s: Seq<char>, n: int, i: int, j: int)
    requires
        0 <= n <= s.len(),
        encloses(s, i, j),
        j < n,
    ensures
        names_before(s, n).contains(s.subrange(i + 1, j)),
    decreases n,
{
    let name = s.subrange(i + 1, j);
    let before = names_before(s, n - 1);
    let now = names_before(s, n);
    if j == n - 1 {
        lemma_last_percent(s, n - 1);
        let l = last_percent(s, n - 1)->0;
        if l < i {
            assert(s[i] != '%');
        }
        if l > i {
            assert(s[l] != '%');
        }
        assert(now[before.len() as int] == name);
    } else {
        lemma_names_in(s, n - 1, i, j);
        let k = choose|k: int| 0 <= k < before.len() && before[k] == name;
        assert(now[k] == name);
    }
}

/// Two environments give the same answers to some names.
pub open spec fn agree(a: Env, b: Env, names: Seq<Seq<char>>) -> bool {
    forall|i: int| 0 <= i < names.len() ==> a.value(#[trigger] names[i]) == b.value(names[i])
}

/// Environments that agree on the names of some texts agree on those of each.
pub proof fn lemma_agree_each(a: Env, b: Env, texts: Seq<Seq<char>>, k: int)
    requires
        agree(a, b, all_names(texts)),
        0 <= k < texts.len(),
    ensures
        agree(a, b, names_in(texts[k])),
    decreases texts.len(),
{
    let before = all_names(texts.drop_last());
    let last = names_in(texts.last());
    if k < texts.len() - 1 {
        assert forall|i: int| 0 <= i < before.len() implies a.value(#[trigger] before[i])
            == b.value(before[i]) by {
            assert(all_names(texts)[i] == before[i]);
        }
        lemma_agree_each(a, b, texts.drop_last(), k);
    } else {
        assert forall|i: int| 0 <= i < last.len() implies a.value(#[trigger] last[i]) == b.value(
            last[i],
        ) by {
            assert(all_names(texts)[before.len() + i] == last[i]);
        }
    }
}

/// Environments that agree on the names of a text agree on what its `%` enclose,
/// there and in every rest of it.
pub proof fn lemma_agree_in(a: Env, b: Env, s: Seq<char>)
    requires
        agree(a, b, names_in(s)),
    ensures
        agree_enclosed(a, b, s),
{
    assert forall|i: int, j: int| #[trigger] encloses(s, i, j) implies a.value(
        s.subrange(i + 1, j),
    ) == b.value(s.subrange(i + 1, j)) by {
        lemma_names_in(s, s.len() as int, i, j);
        let k = choose|k: int| 0 <= k < names_in(s).len() && names_in(s)[k] == s.subrange(i + 1, j);
        assert(a.value(names_in(s)[k]) == b.value(names_in(s)[k]));
    }
}

pub open spec fn agree_enclosed(a: Env, b: Env, s: Seq<char>) -> bool {
    forall|i: int, j: int| #[trigger]
        encloses(s, i, j) ==> a.value(s.subrange(i + 1, j)) == b.value(s.subrange(i + 1, j))
}

pub proof fn lemma_agree_skip(a: Env, b: Env, s: Seq<char>, n: int)
    requires
        0 <= n <= s.len(),
        agree_enclosed(a, b, s),
    ensures
        agree_enclosed(a, b, s.skip(n)),
{
    let t = s.skip(n);
    assert forall|i: int, j: int| #[trigger] encloses(t, i, j) implies a.value(
        t.subrange(i + 1, j),
    ) == b.value(t.subrange(i + 1, j)) by {
        assert forall|k: int| n + i < k < n + j implies #[trigger] s[k] != '%' by {
            assert(t[k - n] != '%');
        }
        assert(s[n + i] == t[i] && s[n + j] == t[j]);
        assert(encloses(s, n + i, n + j));
        assert(s.subrange(n + i + 1, n + j) =~= t.subrange(i + 1, j));
    }
}

} // verus!
