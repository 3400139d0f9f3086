//! Picking startup entries by name, and how they are shown.
use crate::globs::{comma_list, join_with_commas};
use crate::startup::{BootImpact, StartupEntry};
use crate::text::{
    chars_of, copy, decimal, decimal_of, eq_ignore_ascii_case, join3, same_ascii, string_of, views,
};
use vstd::prelude::*;

verus! {

// ------------------------------------------------------------------- names --
/// Which entries a command looks at.
#[derive(Debug, Clone, Copy, PartialEq, Eq, Structural)]
pub enum Wanted {
    Enabled,
    Disabled,
    /// Enabled, and not delayed yet.
    Delayable,
    Delayed,
}

pub open spec fn is_wanted(e: StartupEntry, w: Wanted) -> bool {
    match w {
        Wanted::Enabled => e.enabled,
        Wanted::Disabled => !e.enabled,
        Wanted::Delayable => e.enabled && !e.delayed,
        Wanted::Delayed => e.delayed,
    }
}

/// The positions of the entries with this name, in whatever case, that the
/// command looks at.
pub open spec fn matches(v: Seq<StartupEntry>, name: Seq<char>, w: Wanted) -> Seq<int>
    decreases v.len(),
{
    if v.len() == 0 {
        Seq::empty()
    } else {
        let before = matches(v.drop_last(), name, w);
        if same_ascii(v.last().name@, name) && is_wanted(v.last(), w) {
            before.push(v.len() - 1)
        } else {
            before
        }
    }
}

fn find_matches(v: &Vec<StartupEntry>, name: &str, w: Wanted) -> (r: Vec<usize>)
    ensures
        crate::index::as_ints(r@) == matches(v@, name@, w),
        forall|k: int| 0 <= k < r@.len() ==> (#[trigger] r@[k]) < v@.len(),
{
    let mut out: Vec<usize> = Vec::new();
    let mut i: usize = 0;
    assert(v@.take(0) =~= Seq::empty());
    assert(crate::index::as_ints(out@) =~= Seq::empty());
    while i < v.len()
        invariant
            i <= v@.len(),
            crate::index::as_ints(out@) == matches(v@.take(i as int), name@, w),
            forall|k: int| 0 <= k < out@.len() ==> (#[trigger] out@[k]) < i,
        decreases v@.len() - i,
    {
        assert(v@.take(i + 1).drop_last() =~= v@.take(i as int));
        assert(v@.take(i + 1).last() == v@[i as int]);
        let e: &StartupEntry = &v[i];
        let fits: bool = match w {
            Wanted::Enabled => e.enabled,
            Wanted::Disabled => !e.enabled,
            Wanted::Delayable => e.enabled && !e.delayed,
            Wanted::Delayed => e.delayed,
        };
        if fits && eq_ignore_ascii_case(e.name.as_str(), name) {
            let ghost before = out@;
            out.push(i);
            assert(crate::index::as_ints(out@) =~= crate::index::as_ints(before).push(i as int));
        }
        i += 1;
    }
    assert(v@.take(i as int) =~= v@);
    out
}

/// The labels of the entries at some positions.
pub open spec fn labels_at(v: Seq<StartupEntry>, pos: Seq<int>) -> Seq<Seq<char>> {
    pos.map_values(|i: int| v[i].location_label@)
}

/// Why a name does not pick one entry.
pub open spec fn name_error(v: Seq<StartupEntry>, name: Seq<char>, w: Wanted) -> Option<Seq<char>> {
    let found = matches(v, name, w);
    if found.len() == 1 {
        None
    } else if found.len() == 0 {
        Some(
            match w {
                Wanted::Enabled => "no enabled startup entry named '"@ + name
                    + "'. Run `clean startup list` to see names."@,
                Wanted::Disabled => "no disabled startup entry named '"@ + name
                    + "'. Run `clean startup list` to see names."@,
                Wanted::Delayable => "no enabled, non-delayed startup entry named '"@ + name
                    + "'. Run `clean startup list`."@,
                Wanted::Delayed => "no delayed startup entry named '"@ + name + "'."@,
            },
        )
    } else {
        Some(
            match w {
                Wanted::Enabled | Wanted::Disabled => "'"@ + name + "' matches "@ + decimal(
                    found.len(),
                ) + " entries ("@ + comma_list(labels_at(v, found))
                    + "). This CLI acts on unique names; use the GUI to pick a specific one."@,
                _ => "'"@ + name
                    + "' matches multiple entries. This CLI acts on unique names; use the GUI."@,
            },
        )
    }
}

fn many_error(v: &Vec<StartupEntry>, name: &str, found: &Vec<usize>) -> (r: String)
    requires
        forall|k: int| 0 <= k < found@.len() ==> (#[trigger] found@[k]) < v@.len(),
    ensures
        r@ == "'"@ + name@ + "' matches "@ + decimal(found@.len()) + " entries ("@ + comma_list(
            labels_at(v@, crate::index::as_ints(found@)),
        ) + "). This CLI acts on unique names; use the GUI to pick a specific one."@,
{
    let mut labels: Vec<String> = Vec::new();
    let ghost goal = labels_at(v@, crate::index::as_ints(found@));
    let mut i: usize = 0;
    while i < found.len()
        invariant
            i <= found@.len(),
            forall|k: int| 0 <= k < found@.len() ==> (#[trigger] found@[k]) < v@.len(),
            goal == labels_at(v@, crate::index::as_ints(found@)),
            labels@.len() == i,
            forall|k: int| 0 <= k < i ==> (#[trigger] labels@[k])@ == goal[k],
        decreases found@.len() - i,
    {
        assert(crate::index::as_ints(found@)[i as int] == found@[i as int]);
        labels.push(v[found[i]].location_label.clone());
        i += 1;
    }
    assert(crate::index::as_ints(found@).len() == found@.len());
    assert(views(labels@) =~= goal);
    let count: String = decimal_of(found.len() as u64);
    let head: String = join3("'", name, "' matches ");
    let head: String = join3(head.as_str(), count.as_str(), " entries (");
    let list: String = join_with_commas(&labels);
    join3(
        head.as_str(),
        list.as_str(),
        "). This CLI acts on unique names; use the GUI to pick a specific one.",
    )
}

/// Find the single entry matching `name` in the wanted state, or report the
/// ambiguity / absence.
pub fn resolve(v: &Vec<StartupEntry>, name: &str, w: Wanted) -> (r: Result<usize, String>)
    ensures
        match r {
            Ok(i) => name_error(v@, name@, w) is None && matches(v@, name@, w) == seq![i as int]
                && i < v@.len(),
            Err(e) => name_error(v@, name@, w) == Some(e@),
        },
{
    let found: Vec<usize> = find_matches(v, name, w);
    assert(crate::index::as_ints(found@).len() == found@.len());
    if found.len() == 1 {
        assert(crate::index::as_ints(found@)[0] == found@[0]);
        assert(crate::index::as_ints(found@) =~= seq![found@[0] as int]);
        return Ok(found[0]);
    }
    if found.len() == 0 {
        return Err(
            match w {
                Wanted::Enabled => join3(
                    "no enabled startup entry named '",
                    name,
                    "'. Run `clean startup list` to see names.",
                ),
                Wanted::Disabled => join3(
                    "no disabled startup entry named '",
                    name,
                    "'. Run `clean startup list` to see names.",
                ),
                Wanted::Delayable => join3(
                    "no enabled, non-delayed startup entry named '",
                    name,
                    "'. Run `clean startup list`.",
                ),
                Wanted::Delayed => join3("no delayed startup entry named '", name, "'."),
            },
        );
    }
    Err(
        match w {
            Wanted::Enabled | Wanted::Disabled => many_error(v, name, &found),
            _ => join3(
                "'",
                name,
                "' matches multiple entries. This CLI acts on unique names; use the GUI.",
            ),
        },
    )
}

/// Where a change is asked for.
#[derive(Debug, Clone, Copy, PartialEq, Eq, Structural)]
pub enum Asked {
    DisableInTerminal,
    EnableInTerminal,
    ToggleInWindow,
}

/// Why an entry may not be changed: it needs administrator rights that this
/// process does not have.
pub fn admin_error(e: &StartupEntry, elevated: bool, asked: Asked) -> (r: Option<String>)
    ensures
        match r {
            None => !(e.requires_admin && !elevated),
            Some(text) => e.requires_admin && !elevated && text@ == match asked {
                Asked::DisableInTerminal => "'"@ + e.name@ + "' lives in "@ + e.location_label@
                    + " and needs administrator rights to change. Re-run from an elevated terminal."@,
                Asked::EnableInTerminal => "'"@ + e.name@ + "' belongs to "@ + e.location_label@
                    + " and needs administrator rights to restore. Re-run from an elevated terminal."@,
                Asked::ToggleInWindow => "'"@ + e.name@ + "' lives in "@ + e.location_label@
                    + " and needs administrator rights. Restart Clean Master as administrator first."@,
            },
        },
{
    if !e.requires_admin || elevated {
        return None;
    }
    let head: String = match asked {
        Asked::EnableInTerminal => join3("'", e.name.as_str(), "' belongs to "),
        _ => join3("'", e.name.as_str(), "' lives in "),
    };
    Some(
        match asked {
            Asked::DisableInTerminal => join3(
                head.as_str(),
                e.location_label.as_str(),
                " and needs administrator rights to change. Re-run from an elevated terminal.",
            ),
            Asked::EnableInTerminal => join3(
                head.as_str(),
                e.location_label.as_str(),
                " and needs administrator rights to restore. Re-run from an elevated terminal.",
            ),
            Asked::ToggleInWindow => join3(
                head.as_str(),
                e.location_label.as_str(),
                " and needs administrator rights. Restart Clean Master as administrator first.",
            ),
        },
    )
}

// ----------------------------------------------------------------- display --
pub fn impact_label(i: BootImpact) -> (r: &'static str)
    ensures
        r@ == match i {
            BootImpact::High => "High"@,
            BootImpact::Medium => "Medium"@,
            BootImpact::Low => "Low"@,
        },
{
    match i {
        BootImpact::High => "High",
        BootImpact::Medium => "Medium",
        BootImpact::Low => "Low",
    }
}

/// The state of an entry in words.
pub fn state_text(e: &StartupEntry) -> (r: String)
    ensures
        r@ == if !e.enabled {
            "disabled"@
        } else if e.delayed {
            "delayed "@ + decimal(e.delay_secs as nat) + "s"@
        } else {
            "enabled"@
        },
{
    if !e.enabled {
        copy("disabled")
    } else if e.delayed {
        let secs: String = decimal_of(e.delay_secs as u64);
        join3("delayed ", secs.as_str(), "s")
    } else {
        copy("enabled")
    }
}

/// At most `n` characters: a longer text ends in an ellipsis.
pub fn truncate(s: &str, n: usize) -> (r: String)
    requires
        n >= 1,
    ensures
        r@ == if s@.len() <= n {
            s@
        } else {
            s@.take(n - 1).push('\u{2026}')
        },
        r@.len() <= n,
{
    let cs: Vec<char> = chars_of(s);
    if cs.len() <= n {
        return copy(s);
    }
    let mut out: String = string_of(&cs, 0, n - 1);
    assert(out@ =~= s@.take(n - 1));
    out.push('\u{2026}');
    out
}

pub open spec fn is_high() -> spec_fn(StartupEntry) -> bool {
    |e: StartupEntry| e.impact is High
}

pub open spec fn is_enabled() -> spec_fn(StartupEntry) -> bool {
    |e: StartupEntry| e.enabled
}

/// How many entries have a high impact, and how many are enabled.
pub fn count_entries(v: &Vec<StartupEntry>) -> (r: (usize, usize))
    ensures
        r.0 == v@.filter(is_high()).len(),
        r.1 == v@.filter(is_enabled()).len(),
{
    let mut high: usize = 0;
    let mut enabled: usize = 0;
    let n: usize = v.len();
    let mut i: usize = 0;
    proof {
        crate::lists::lemma_filter_ends(v@, is_high());
        crate::lists::lemma_filter_ends(v@, is_enabled());
    }
    while i < n
        invariant
            i <= n == v@.len(),
            high == v@.take(i as int).filter(is_high()).len(),
            enabled == v@.take(i as int).filter(is_enabled()).len(),
            high <= i,
            enabled <= i,
        decreases n - i,
    {
        proof {
            crate::lists::lemma_filter_take(v@, is_high(), i as int);
            crate::lists::lemma_filter_take(v@, is_enabled(), i as int);
        }
        match v[i].impact {
            BootImpact::High => {
                high += 1;
            },
            _ => {},
        }
        if v[i].enabled {
            enabled += 1;
        }
        i += 1;
    }
    (high, enabled)
}

/// High impact and enabled entries are counted as such.
pub proof fn law_how_entries_are_counted(e: StartupEntry)
    ensures
        is_high()(e) <==> e.impact is High,
        is_enabled()(e) <==> e.enabled,
{
}

/// A name is accepted exactly where one entry in the state asked for has it.
pub proof fn law_a_name_must_be_unique(v: Seq<StartupEntry>, name: Seq<char>, w: Wanted)
    ensures
        name_error(v, name, w) is None <==> matches(v, name, w).len() == 1,
{
}

} // verus!
