//! Which running applications hold files open, as the Restart Manager tells.
use crate::text::{decimal, decimal_of, join2, list_contains, views};
use crate::types::Platform;
use crate::utf16::{decoded, encode_utf16, encoded, from_utf16_lossy};
use vstd::prelude::*;

verus! {

/// A sample is enough to name the culprits.
pub const MAX_FILES: usize = 64;

pub const ERROR_MORE_DATA: u32 = 234;

/// One process in the Restart Manager's list.
pub struct Holder {
    pub process_id: u32,
    /// UTF-16, ended by a zero unit or by the end of the field.
    pub app_name: Vec<u16>,
}

/// The units in front of the first zero.
pub open spec fn until_zero(u: Seq<u16>) -> Seq<u16>
    decreases u.len(),
{
    if u.len() == 0 || u[0] == 0 {
        Seq::empty()
    } else {
        seq![u[0]] + until_zero(u.skip(1))
    }
}

/// The number of units in front of the first zero.
pub fn zero_at(u: &[u16]) -> (r: usize)
    ensures
        r <= u@.len(),
        u@.subrange(0, r as int) == until_zero(u@),
        forall|i: int| 0 <= i < r ==> #[trigger] u@[i] != 0,
        r < u@.len() ==> u@[r as int] == 0,
{
    let mut i: usize = 0;
    assert(u@.skip(0) =~= u@);
    assert(u@.subrange(0, 0) + until_zero(u@) =~= until_zero(u@));
    while i < u.len() && u[i] != 0
        invariant
            i <= u@.len(),
            u@.subrange(0, i as int) + until_zero(u@.skip(i as int)) == until_zero(u@),
            forall|k: int| 0 <= k < i ==> #[trigger] u@[k] != 0,
        decreases u@.len() - i,
    {
        proof {
            let rest = u@.skip(i as int);
            assert(rest.skip(1) =~= u@.skip(i + 1));
            assert(u@.subrange(0, i as int) + (seq![u@[i as int]] + until_zero(rest.skip(1)))
                =~= u@.subrange(0, i + 1) + until_zero(rest.skip(1)));
        }
        i += 1;
    }
    assert(until_zero(u@.skip(i as int)) =~= Seq::empty());
    assert(u@.subrange(0, i as int) + Seq::empty() =~= u@.subrange(0, i as int));
    i
}

/// What a holder is called: its application name, or its process id.
pub open spec fn holder_name(h: Holder) -> Seq<char> {
    let name = decoded(until_zero(h.app_name@));
    if name.len() == 0 {
        "PID "@ + decimal(h.process_id as nat)
    } else {
        name
    }
}

/// Each name once, in the order in which it comes first.
pub open spec fn holder_names(v: Seq<Holder>) -> Seq<Seq<char>>
    decreases v.len(),
{
    if v.len() == 0 {
        Seq::empty()
    } else {
        let before = holder_names(v.drop_last());
        if before.contains(holder_name(v.last())) {
            before
        } else {
            before.push(holder_name(v.last()))
        }
    }
}

/// The paths to ask about: the first ones, as zero-terminated UTF-16.
pub fn wide_paths(paths: &Vec<String>) -> (r: Vec<Vec<u16>>)
    ensures
        r@.len() == if paths@.len() < MAX_FILES {
            paths@.len()
        } else {
            MAX_FILES as nat
        },
        forall|i: int|
            0 <= i < r@.len() ==> (#[trigger] r@[i])@ == encoded(paths@[i]@).push(0u16),
{
    let mut out: Vec<Vec<u16>> = Vec::new();
    let mut i: usize = 0;
    while i < paths.len() && i < MAX_FILES
        invariant
            i <= paths@.len(),
            i <= MAX_FILES,
            out@.len() == i,
            forall|k: int|
                0 <= k < i ==> (#[trigger] out@[k])@ == encoded(paths@[k]@).push(0u16),
        decreases paths@.len() - i,
    {
        let mut w: Vec<u16> = encode_utf16(paths[i].as_str());
        w.push(0);
        out.push(w);
        i += 1;
    }
    out
}

/// How many entries to make room for after the first query, which says how many
/// there are; none where there is nothing to list.
pub fn list_capacity(rc: u32, needed: u32) -> (r: Option<u32>)
    ensures
        r == if (rc == ERROR_MORE_DATA || rc == 0) && needed > 0 {
            Some(
                if needed < 64 {
                    needed
                } else {
                    64
                },
            )
        } else {
            None
        },
{
    if (rc == ERROR_MORE_DATA || rc == 0) && needed > 0 {
        Some(
            if needed < 64 {
                needed
            } else {
                64
            },
        )
    } else {
        None
    }
}

/// Names of the running applications that hold open handles. Only Windows can
/// tell; elsewhere the list is empty.
pub fn in_use_by(platform: Platform, found: &Vec<Holder>) -> (r: Vec<String>)
    ensures
        views(r@) == match platform {
            Platform::Windows => holder_names(found@),
            _ => Seq::empty(),
        },
{
    let mut out: Vec<String> = Vec::new();
    match platform {
        Platform::Windows => {},
        _ => {
            assert(views(out@) =~= Seq::empty());
            return out;
        },
    }
    let mut i: usize = 0;
    assert(views(out@) =~= holder_names(found@.take(0)));
    while i < found.len()
        invariant
            i <= found@.len(),
            views(out@) == holder_names(found@.take(i as int)),
        decreases found@.len() - i,
    {
        let h: &Holder = &found[i];
        let n: usize = zero_at(&h.app_name);
        let name: String = from_utf16_lossy(&h.app_name, 0, n);
        let shown: String = if name.as_str().is_empty() {
            join2("PID ", decimal_of(h.process_id as u64).as_str())
        } else {
            name
        };
        let ghost before = out@;
        if !list_contains(&out, shown.as_str()) {
            out.push(shown);
            assert(views(out@) =~= views(before).push(shown@));
        }
        i += 1;
        assert(found@.take(i as int).drop_last() =~= found@.take(i - 1));
        assert(found@.take(i as int).last() == found@[i - 1]);
    }
    assert(found@.take(i as int) =~= found@);
    out
}

/// No application is named twice.
pub proof fn law_holders_are_distinct(v: Seq<Holder>)
    ensures
        holder_names(v).no_duplicates(),
    decreases v.len(),
{
    if v.len() > 0 {
        law_holders_are_distinct(v.drop_last());
    }
}

/// A name ends at its first zero unit, or where the field ends.
pub proof fn law_name_ends_at_the_first_zero(name: Seq<u16>, rest: Seq<u16>)
    requires
        forall|i: int| 0 <= i < name.len() ==> #[trigger] name[i] != 0,
    ensures
        until_zero(name) == name,
        until_zero(name + seq![0u16] + rest) == name,
    decreases name.len(),
{
    let all = name + seq![0u16] + rest;
    if name.len() == 0 {
        assert(all[0] == 0);
        assert(until_zero(all) =~= name);
    } else {
        let tail = name.skip(1);
        assert forall|i: int| 0 <= i < tail.len() implies #[trigger] tail[i] != 0 by {
            assert(tail[i] == name[i + 1]);
        }
        law_name_ends_at_the_first_zero(tail, rest);
        assert(all.skip(1) =~= tail + seq![0u16] + rest);
        assert(all[0] == name[0] && name[0] != 0);
        assert(until_zero(all) =~= name);
        assert(until_zero(name) =~= name);
    }
}

/// Every process that holds a file is named, and nothing else is: by the name it
/// gives itself, or by its number where it gives none.
pub proof fn law_every_holder_is_named(v: Seq<Holder>)
    ensures
        forall|i: int|
            0 <= i < v.len() ==> {
                let name = decoded(until_zero((#[trigger] v[i]).app_name@));
                holder_names(v).contains(
                    if name.len() > 0 {
                        name
                    } else {
                        "PID "@ + decimal(v[i].process_id as nat)
                    },
                )
            },
        holder_names(v).len() <= v.len(),
    decreases v.len(),
{
    let all = holder_names(v);
    if v.len() > 0 {
        let front = v.drop_last();
        let before = holder_names(front);
        law_every_holder_is_named(front);
        assert forall|i: int| 0 <= i < v.len() implies all.contains(holder_name(#[trigger] v[i])) by {
            if i < front.len() {
                assert(front[i] == v[i]);
                let k = choose|k: int| 0 <= k < before.len() && before[k] == holder_name(v[i]);
                assert(all[k] == holder_name(v[i]));
            } else if !before.contains(holder_name(v[i])) {
                assert(all[before.len() as int] == holder_name(v[i]));
            } else {
                assert(all == before);
            }
        }
        assert forall|i: int| 0 <= i < v.len() implies {
            let name = decoded(until_zero((#[trigger] v[i]).app_name@));
            all.contains(
                if name.len() > 0 {
                    name
                } else {
                    "PID "@ + decimal(v[i].process_id as nat)
                },
            )
        } by {
            assert(all.contains(holder_name(v[i])));
        }
    }
}

} // verus!
