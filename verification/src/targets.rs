//! From scan results to what is deleted: the user selects rules, groups or
//! artifacts, and every target is derived again from the results and passed
//! through the deletion filter.
use crate::deletion::{pairs, ApplyOutcome};
use crate::devscan::{is_recommended, DevProject};
use crate::dupes::DupeGroup;
use crate::env::Env;
use crate::lists::{lemma_filter_member, lemma_sum_take, sum};
use crate::report::at_most;
use crate::rules::{JunkFinding, RuleReport};
use crate::safety::{deletion_allowed, may_delete};
use crate::text::{
    chars_of, copy, eq_ignore_ascii_case, list_contains, same, same_ascii, string_of, trim, trimmed,
    views,
};
use crate::types::{records, FileRecord, Platform, Record};
use vstd::prelude::*;

verus! {

/// The views of a list of paths with their sizes.
pub open spec fn target_views(v: Seq<(String, u64)>) -> Seq<(Seq<char>, u64)> {
    v.map_values(|t: (String, u64)| (t.0@, t.1))
}

/// What a finding asks to delete.
pub open spec fn finding_target() -> spec_fn(JunkFinding) -> (Seq<char>, u64) {
    |f: JunkFinding| (f.record.path@, f.record.size)
}

/// What a report asks to delete.
pub open spec fn report_targets(r: RuleReport) -> Seq<(Seq<char>, u64)> {
    r.findings@.map_values(finding_target())
}

fn targets_of(r: &RuleReport) -> (out: Vec<(String, u64)>)
    ensures
        target_views(out@) == report_targets(*r),
{
    let mut out: Vec<(String, u64)> = Vec::new();
    let mut i: usize = 0;
    while i < r.findings.len()
        invariant
            i <= r.findings@.len(),
            out@.len() == i,
            forall|k: int|
                0 <= k < i ==> ((#[trigger] out@[k]).0@, out@[k].1) == report_targets(*r)[k],
        decreases r.findings@.len() - i,
    {
        let f: &JunkFinding = &r.findings[i];
        out.push((f.record.path.clone(), f.record.size));
        i += 1;
    }
    assert(target_views(out@) =~= report_targets(*r));
    out
}

fn append_targets(to: &mut Vec<(String, u64)>, more: Vec<(String, u64)>)
    ensures
        final(to)@ == old(to)@ + more@,
{
    let mut more: Vec<(String, u64)> = more;
    to.append(&mut more);
}

// ------------------------------------------------------------- junk report --
/// A rule counts by default, or where opt-in rules were asked for too.
pub open spec fn is_selected(r: RuleReport, all: bool) -> bool {
    r.rule.default_apply || all
}

/// How a rule comes to be applied.
pub open spec fn apply_text(r: RuleReport, all: bool) -> Seq<char> {
    if r.rule.default_apply {
        "default"@
    } else if all {
        "opt-in*"@
    } else {
        "opt-in"@
    }
}

/// One line of the report: the number of the rule report, and how the rule
/// comes to be applied.
#[derive(Debug)]
pub struct JunkRow {
    pub report: usize,
    pub apply: &'static str,
}

/// What would be (or is about to be) reclaimed.
#[derive(Debug)]
pub struct JunkReport {
    pub rows: Vec<JunkRow>,
    pub total_files: usize,
    pub total_bytes: u64,
    pub skipped_optional: usize,
    pub targets: Vec<(String, u64)>,
    pub bases: Vec<String>,
}

pub open spec fn row_views(v: Seq<JunkRow>) -> Seq<(int, Seq<char>)> {
    v.map_values(|r: JunkRow| (r.report as int, r.apply@))
}

/// Rules that found something, in order.
pub open spec fn junk_rows(v: Seq<RuleReport>, all: bool) -> Seq<(int, Seq<char>)>
    decreases v.len(),
{
    if v.len() == 0 {
        Seq::empty()
    } else {
        let before = junk_rows(v.drop_last(), all);
        if v.last().findings@.len() > 0 {
            before.push((v.len() - 1, apply_text(v.last(), all)))
        } else {
            before
        }
    }
}

/// Files found by the selected rules (or, with `wanted` false, by the others).
pub open spec fn junk_files(v: Seq<RuleReport>, all: bool, wanted: bool) -> nat
    decreases v.len(),
{
    if v.len() == 0 {
        0
    } else {
        junk_files(v.drop_last(), all, wanted) + if is_selected(v.last(), all) == wanted {
            v.last().findings@.len()
        } else {
            0
        }
    }
}

/// Bytes found by the selected rules.
pub open spec fn junk_bytes(v: Seq<RuleReport>, all: bool) -> nat
    decreases v.len(),
{
    if v.len() == 0 {
        0
    } else {
        junk_bytes(v.drop_last(), all) + if is_selected(v.last(), all) && v.last().findings@.len()
            > 0 {
            v.last().bytes as nat
        } else {
            0
        }
    }
}

/// What the selected rules ask to delete.
pub open spec fn junk_targets(v: Seq<RuleReport>, all: bool) -> Seq<(Seq<char>, u64)>
    decreases v.len(),
{
    if v.len() == 0 {
        Seq::empty()
    } else if is_selected(v.last(), all) {
        junk_targets(v.drop_last(), all) + report_targets(v.last())
    } else {
        junk_targets(v.drop_last(), all)
    }
}

/// The bases of the selected rules.
pub open spec fn junk_bases(v: Seq<RuleReport>, all: bool) -> Seq<Seq<char>>
    decreases v.len(),
{
    if v.len() == 0 {
        Seq::empty()
    } else if is_selected(v.last(), all) {
        junk_bases(v.drop_last(), all).push(v.last().base@)
    } else {
        junk_bases(v.drop_last(), all)
    }
}

proof fn lemma_junk_prefix(v: Seq<RuleReport>, all: bool, i: int)
    requires
        0 <= i <= v.len(),
    ensures
        junk_files(v.take(i), all, true) <= junk_files(v, all, true),
        junk_files(v.take(i), all, false) <= junk_files(v, all, false),
        junk_bytes(v.take(i), all) <= junk_bytes(v, all),
    decreases v.len() - i,
{
    if i < v.len() {
        lemma_junk_prefix(v, all, i + 1);
        assert(v.take(i + 1).drop_last() =~= v.take(i));
    } else {
        assert(v.take(i) =~= v);
    }
}

/// Report what would be (or is about to be) reclaimed, with the deletable
/// targets and the rule bases they are authorized under.
///
/// Opt-in rules (`default_apply == false`, e.g. browser history / cookies) are
/// always shown so the user knows they exist, but their files are only returned
/// as targets when `include_optional` is set.
pub fn junk_report(reports: &Vec<RuleReport>, include_optional: bool) -> (r: JunkReport)
    requires
        junk_files(reports@, include_optional, true) <= usize::MAX,
        junk_files(reports@, include_optional, false) <= usize::MAX,
        junk_bytes(reports@, include_optional) <= u64::MAX,
    ensures
        row_views(r.rows@) == junk_rows(reports@, include_optional),
        r.total_files == junk_files(reports@, include_optional, true),
        r.total_bytes == junk_bytes(reports@, include_optional),
        r.skipped_optional == junk_files(reports@, include_optional, false),
        r.total_files == 0 && r.skipped_optional == 0 ==> r.targets@.len() == 0 && r.bases@.len()
            == 0,
        !(r.total_files == 0 && r.skipped_optional == 0) ==> target_views(r.targets@)
            == junk_targets(reports@, include_optional) && views(r.bases@) == junk_bases(
            reports@,
            include_optional,
        ),
{
    let all: bool = include_optional;
    let mut rows: Vec<JunkRow> = Vec::new();
    let mut total_files: usize = 0;
    let mut total_bytes: u64 = 0;
    let mut skipped: usize = 0;
    let mut targets: Vec<(String, u64)> = Vec::new();
    let mut bases: Vec<String> = Vec::new();
    let n: usize = reports.len();
    let mut i: usize = 0;
    assert(reports@.take(0) =~= Seq::empty());
    assert(row_views(rows@) =~= Seq::empty());
    assert(target_views(targets@) =~= Seq::empty());
    assert(views(bases@) =~= Seq::empty());
    while i < n
        invariant
            i <= n == reports@.len(),
            all == include_optional,
            junk_files(reports@, all, true) <= usize::MAX,
            junk_files(reports@, all, false) <= usize::MAX,
            junk_bytes(reports@, all) <= u64::MAX,
            row_views(rows@) == junk_rows(reports@.take(i as int), all),
            total_files == junk_files(reports@.take(i as int), all, true),
            skipped == junk_files(reports@.take(i as int), all, false),
            total_bytes == junk_bytes(reports@.take(i as int), all),
            target_views(targets@) == junk_targets(reports@.take(i as int), all),
            views(bases@) == junk_bases(reports@.take(i as int), all),
        decreases n - i,
    {
        proof {
            assert(reports@.take(i + 1).drop_last() =~= reports@.take(i as int));
            assert(reports@.take(i + 1).last() == reports@[i as int]);
            lemma_junk_prefix(reports@, all, i + 1);
        }
        let r: &RuleReport = &reports[i];
        let count: usize = r.findings.len();
        let selected: bool = r.rule.default_apply || all;
        if count > 0 {
            let apply: &'static str = if r.rule.default_apply {
                "default"
            } else if all {
                "opt-in*"
            } else {
                "opt-in"
            };
            let ghost before = rows@;
            rows.push(JunkRow { report: i, apply });
            assert(row_views(rows@) =~= row_views(before).push((i as int, apply@)));
            if selected {
                total_files = total_files + count;
                total_bytes = total_bytes + r.bytes;
            } else {
                skipped = skipped + count;
            }
        }
        if selected {
            let more: Vec<(String, u64)> = targets_of(r);
            let ghost a = targets@;
            let ghost b = more@;
            append_targets(&mut targets, more);
            assert(target_views(a + b) =~= target_views(a) + target_views(b));
            let ghost before = bases@;
            bases.push(r.base.clone());
            assert(views(bases@) =~= views(before).push(r.base@));
        }
        i += 1;
    }
    assert(reports@.take(n as int) =~= reports@);
    if total_files == 0 && skipped == 0 {
        return JunkReport {
            rows,
            total_files,
            total_bytes,
            skipped_optional: skipped,
            targets: Vec::new(),
            bases: Vec::new(),
        };
    }
    JunkReport { rows, total_files, total_bytes, skipped_optional: skipped, targets, bases }
}

/// Files and bytes of all rules.
pub open spec fn scan_files(v: Seq<RuleReport>) -> nat {
    sum(v, |r: RuleReport| r.findings@.len())
}

pub open spec fn scan_bytes(v: Seq<RuleReport>) -> nat {
    sum(v, |r: RuleReport| r.bytes as nat)
}

/// How many files all rules found, and how many bytes.
pub fn scan_totals(reports: &Vec<RuleReport>) -> (r: (usize, u64))
    requires
        scan_files(reports@) <= usize::MAX,
        scan_bytes(reports@) <= u64::MAX,
    ensures
        r.0 == scan_files(reports@),
        r.1 == scan_bytes(reports@),
{
    let ghost f = |r: RuleReport| r.findings@.len();
    let ghost b = |r: RuleReport| r.bytes as nat;
    let mut files: usize = 0;
    let mut bytes: u64 = 0;
    let n: usize = reports.len();
    let mut i: usize = 0;
    assert(reports@.take(0) =~= Seq::empty());
    while i < n
        invariant
            i <= n == reports@.len(),
            f == (|r: RuleReport| r.findings@.len()),
            b == (|r: RuleReport| r.bytes as nat),
            sum(reports@, f) <= usize::MAX,
            sum(reports@, b) <= u64::MAX,
            files == sum(reports@.take(i as int), f),
            bytes == sum(reports@.take(i as int), b),
        decreases n - i,
    {
        proof {
            lemma_sum_take(reports@, f, i as int);
            lemma_sum_take(reports@, b, i as int);
        }
        files = files + reports[i].findings.len();
        bytes = bytes + reports[i].bytes;
        i += 1;
    }
    assert(reports@.take(n as int) =~= reports@);
    (files, bytes)
}

// ---------------------------------------------------------- junk selection --
/// What is kept of the last junk scan: per rule, its base and its targets.
#[derive(Debug)]
pub struct JunkRuleState {
    pub id: String,
    pub base: String,
    pub targets: Vec<(String, u64)>,
}

/// The state that a report leaves.
pub open spec fn is_state_of(s: JunkRuleState, r: RuleReport) -> bool {
    s.id@ == r.rule.id@ && s.base@ == r.base@ && target_views(s.targets@) == report_targets(r)
}

/// The state that a scan leaves, rule by rule.
pub fn junk_state(reports: &Vec<RuleReport>) -> (r: Vec<JunkRuleState>)
    ensures
        r@.len() == reports@.len(),
        forall|i: int| 0 <= i < r@.len() ==> is_state_of(#[trigger] r@[i], reports@[i]),
{
    let mut out: Vec<JunkRuleState> = Vec::new();
    let mut i: usize = 0;
    while i < reports.len()
        invariant
            i <= reports@.len(),
            out@.len() == i,
            forall|k: int| 0 <= k < i ==> is_state_of(#[trigger] out@[k], reports@[k]),
        decreases reports@.len() - i,
    {
        let r: &RuleReport = &reports[i];
        out.push(
            JunkRuleState { id: r.rule.id.clone(), base: r.base.clone(), targets: targets_of(r) },
        );
        i += 1;
    }
    out
}

/// A target with the rule that it came from.
#[derive(Debug)]
pub struct JunkTarget {
    pub path: String,
    pub size: u64,
    pub rule: String,
}

pub open spec fn junk_target_views(v: Seq<JunkTarget>) -> Seq<(Seq<char>, u64, Seq<char>)> {
    v.map_values(|t: JunkTarget| (t.path@, t.size, t.rule@))
}

/// The targets of the selected rules.
#[derive(Debug)]
pub struct JunkPlan {
    pub targets: Vec<JunkTarget>,
    pub bases: Vec<String>,
}

pub open spec fn rule_targets(s: JunkRuleState) -> Seq<(Seq<char>, u64, Seq<char>)> {
    s.targets@.map_values(|t: (String, u64)| (t.0@, t.1, s.id@))
}

/// The targets of the rules whose id was selected, in order.
pub open spec fn chosen_targets(v: Seq<JunkRuleState>, ids: Seq<Seq<char>>) -> Seq<
    (Seq<char>, u64, Seq<char>),
>
    decreases v.len(),
{
    if v.len() == 0 {
        Seq::empty()
    } else if ids.contains(v.last().id@) {
        chosen_targets(v.drop_last(), ids) + rule_targets(v.last())
    } else {
        chosen_targets(v.drop_last(), ids)
    }
}

/// The bases of the rules whose id was selected.
pub open spec fn chosen_bases(v: Seq<JunkRuleState>, ids: Seq<Seq<char>>) -> Seq<Seq<char>>
    decreases v.len(),
{
    if v.len() == 0 {
        Seq::empty()
    } else if ids.contains(v.last().id@) {
        chosen_bases(v.drop_last(), ids).push(v.last().base@)
    } else {
        chosen_bases(v.drop_last(), ids)
    }
}

/// The targets of the selected rules. Errors where nothing was scanned, or
/// nothing is selected.
pub fn junk_select(state: &Vec<JunkRuleState>, rule_ids: &Vec<String>) -> (r: Result<
    JunkPlan,
    String,
>)
    ensures
        match r {
            Ok(p) => {
                &&& state@.len() > 0
                &&& junk_target_views(p.targets@) == chosen_targets(state@, views(rule_ids@))
                &&& views(p.bases@) == chosen_bases(state@, views(rule_ids@))
                &&& p.targets@.len() > 0
            },
            Err(e) => if state@.len() == 0 {
                e@ == "No scan results. Run a scan first."@
            } else {
                chosen_targets(state@, views(rule_ids@)).len() == 0 && e@ == "Nothing selected."@
            },
        },
{
    if state.len() == 0 {
        return Err(copy("No scan results. Run a scan first."));
    }
    let ghost ids = views(rule_ids@);
    let mut targets: Vec<JunkTarget> = Vec::new();
    let mut bases: Vec<String> = Vec::new();
    let mut i: usize = 0;
    assert(state@.take(0) =~= Seq::empty());
    assert(junk_target_views(targets@) =~= Seq::empty());
    assert(views(bases@) =~= Seq::empty());
    while i < state.len()
        invariant
            i <= state@.len(),
            ids == views(rule_ids@),
            junk_target_views(targets@) == chosen_targets(state@.take(i as int), ids),
            views(bases@) == chosen_bases(state@.take(i as int), ids),
        decreases state@.len() - i,
    {
        assert(state@.take(i + 1).drop_last() =~= state@.take(i as int));
        assert(state@.take(i + 1).last() == state@[i as int]);
        let s: &JunkRuleState = &state[i];
        if list_contains(rule_ids, s.id.as_str()) {
            let ghost before = bases@;
            bases.push(s.base.clone());
            assert(views(bases@) =~= views(before).push(s.base@));
            let ghost start = junk_target_views(targets@);
            let ghost more = rule_targets(*s);
            let mut j: usize = 0;
            assert(start + more.take(0) =~= start);
            while j < s.targets.len()
                invariant
                    j <= s.targets@.len(),
                    more == rule_targets(*s),
                    junk_target_views(targets@) == start + more.take(j as int),
                decreases s.targets@.len() - j,
            {
                let ghost t0 = targets@;
                let t: JunkTarget = JunkTarget {
                    path: s.targets[j].0.clone(),
                    size: s.targets[j].1,
                    rule: s.id.clone(),
                };
                targets.push(t);
                j += 1;
                proof {
                    assert(junk_target_views(targets@) =~= junk_target_views(t0).push(
                        (t.path@, t.size, t.rule@),
                    ));
                    assert(more.take(j as int) =~= more.take(j - 1).push(more[j - 1]));
                    assert(start + more.take(j as int) =~= (start + more.take(j - 1)).push(
                        more[j - 1],
                    ));
                }
            }
            assert(more.take(j as int) =~= more);
        }
        i += 1;
    }
    assert(state@.take(i as int) =~= state@);
    assert(junk_target_views(targets@).len() == targets@.len());
    if targets.len() == 0 {
        return Err(copy("Nothing selected."));
    }
    Ok(JunkPlan { targets, bases })
}

// ---------------------------------------------------------- deletion filter --
/// A target that may be deleted.
pub open spec fn passes(platform: Platform, env: Env, bases: Seq<Seq<char>>) -> spec_fn(
    (Seq<char>, u64),
) -> bool {
    |t: (Seq<char>, u64)| may_delete(platform, env, t.0, bases)
}

/// Safety filter: a target must sit inside one of the given bases, or be outside
/// every protected root.
pub fn permitted_targets(
    platform: Platform,
    env: &Env,
    targets: &Vec<(String, u64)>,
    bases: &Vec<String>,
) -> (r: Vec<(String, u64)>)
    ensures
        target_views(r@) == target_views(targets@).filter(passes(platform, *env, views(bases@))),
{
    let ghost all = target_views(targets@);
    let ghost p = passes(platform, *env, views(bases@));
    let mut out: Vec<(String, u64)> = Vec::new();
    let mut i: usize = 0;
    proof {
        crate::lists::lemma_filter_ends(all, p);
        assert(target_views(out@) =~= Seq::empty());
    }
    while i < targets.len()
        invariant
            i <= targets@.len(),
            all == target_views(targets@),
            p == passes(platform, *env, views(bases@)),
            target_views(out@) == all.take(i as int).filter(p),
        decreases targets@.len() - i,
    {
        proof {
            crate::lists::lemma_filter_take(all, p, i as int);
        }
        assert(all[i as int] == (targets@[i as int].0@, targets@[i as int].1));
        if deletion_allowed(platform, env, targets[i].0.as_str(), bases) {
            let ghost before = out@;
            out.push((targets[i].0.clone(), targets[i].1));
            assert(target_views(out@) =~= target_views(before).push(all[i as int]));
        }
        i += 1;
    }
    proof {
        crate::lists::lemma_filter_ends(all, p);
    }
    out
}

/// What is permitted may be deleted, and all of it was asked for.
pub proof fn law_nothing_protected_is_permitted(
    platform: Platform,
    env: Env,
    targets: Seq<(Seq<char>, u64)>,
    bases: Seq<Seq<char>>,
    i: int,
)
    requires
        0 <= i < targets.filter(passes(platform, env, bases)).len(),
    ensures
        may_delete(platform, env, targets.filter(passes(platform, env, bases))[i].0, bases),
        targets.contains(targets.filter(passes(platform, env, bases))[i]),
{
    let p = passes(platform, env, bases);
    lemma_filter_member(targets, p, i);
}

/// The plain targets of a plan.
pub fn plain_targets(v: &Vec<JunkTarget>) -> (r: Vec<(String, u64)>)
    ensures
        target_views(r@) == v@.map_values(|t: JunkTarget| (t.path@, t.size)),
{
    let mut out: Vec<(String, u64)> = Vec::new();
    let mut i: usize = 0;
    while i < v.len()
        invariant
            i <= v@.len(),
            out@.len() == i,
            forall|k: int|
                0 <= k < i ==> ((#[trigger] out@[k]).0@, out@[k].1) == (v@[k].path@, v@[k].size),
        decreases v@.len() - i,
    {
        out.push((v[i].path.clone(), v[i].size));
        i += 1;
    }
    assert(target_views(out@) =~= v@.map_values(|t: JunkTarget| (t.path@, t.size)));
    out
}

/// The rule of a path: that of the last target with it.
pub open spec fn rule_of(v: Seq<JunkTarget>, path: Seq<char>) -> Option<Seq<char>>
    decreases v.len(),
{
    if v.len() == 0 {
        None
    } else if v.last().path@ == path {
        Some(v.last().rule@)
    } else {
        rule_of(v.drop_last(), path)
    }
}

/// The rules of the files that failed, each once, in the order of the files.
pub open spec fn rules_of_failed(
    v: Seq<JunkTarget>,
    failed: Seq<(Seq<char>, Seq<char>)>,
) -> Seq<Seq<char>>
    decreases failed.len(),
{
    if failed.len() == 0 {
        Seq::empty()
    } else {
        let before = rules_of_failed(v, failed.drop_last());
        match rule_of(v, failed.last().0) {
            Some(id) => if before.contains(id) {
                before
            } else {
                before.push(id)
            },
            None => before,
        }
    }
}

fn find_rule<'a>(v: &'a Vec<JunkTarget>, path: &str) -> (r: Option<&'a String>)
    ensures
        (match r {
            Some(s) => Some(s@),
            None => None,
        }) == rule_of(v@, path@),
{
    let mut i: usize = v.len();
    assert(v@.take(i as int) =~= v@);
    while i > 0
        invariant
            i <= v@.len(),
            rule_of(v@, path@) == rule_of(v@.take(i as int), path@),
        decreases i,
    {
        i -= 1;
        assert(v@.take(i + 1).drop_last() =~= v@.take(i as int));
        assert(v@.take(i + 1).last() == v@[i as int]);
        if same(v[i].path.as_str(), path) {
            return Some(&v[i].rule);
        }
    }
    None
}

/// Rule ids that had at least one file fail. They are greyed on the next scan.
pub fn blocked_rules(v: &Vec<JunkTarget>, failed: &Vec<(String, String)>) -> (r: Vec<String>)
    ensures
        views(r@) == rules_of_failed(v@, pairs(failed@)),
{
    let ghost all = pairs(failed@);
    let mut out: Vec<String> = Vec::new();
    let mut i: usize = 0;
    assert(all.take(0) =~= Seq::empty());
    assert(views(out@) =~= Seq::empty());
    while i < failed.len()
        invariant
            i <= failed@.len(),
            all == pairs(failed@),
            views(out@) == rules_of_failed(v@, all.take(i as int)),
        decreases failed@.len() - i,
    {
        assert(all.take(i + 1).drop_last() =~= all.take(i as int));
        assert(all.take(i + 1).last() == (failed@[i as int].0@, failed@[i as int].1@));
        match find_rule(v, failed[i].0.as_str()) {
            Some(id) => {
                if !list_contains(&out, id.as_str()) {
                    let ghost before = out@;
                    out.push(id.clone());
                    assert(views(out@) =~= views(before).push(id@));
                }
            },
            None => {},
        }
        i += 1;
    }
    assert(all.take(i as int) =~= all);
    out
}

// -------------------------------------------------------------- duplicates --
/// The redundant copies of a group that may be deleted.
pub open spec fn group_targets(platform: Platform, env: Env, g: DupeGroup) -> Seq<
    (Seq<char>, u64),
> {
    records(g.members@).remove(g.suggested_keep as int).map_values(
        |r: Record| (r.path, r.size),
    ).filter(passes(platform, env, Seq::empty()))
}

/// The targets of the selected groups. A number without a group is passed over;
/// so is a group whose keeper is gone - one copy always survives.
pub open spec fn dupe_targets(
    platform: Platform,
    env: Env,
    groups: Seq<DupeGroup>,
    indexes: Seq<usize>,
    keeper_exists: Seq<bool>,
) -> Seq<(Seq<char>, u64)>
    decreases indexes.len(),
{
    if indexes.len() == 0 {
        Seq::empty()
    } else {
        let before = dupe_targets(platform, env, groups, indexes.drop_last(), keeper_exists);
        let i = indexes.last() as int;
        if i < groups.len() && keeper_exists[i] {
            before + group_targets(platform, env, groups[i])
        } else {
            before
        }
    }
}

fn targets_of_group(platform: Platform, env: &Env, g: &DupeGroup) -> (r: Vec<(String, u64)>)
    requires
        g.has_keeper(),
    ensures
        target_views(r@) == group_targets(platform, *env, *g),
{
    let list: Vec<&FileRecord> = g.deletable();
    let ghost recs = crate::report::ref_records(list@);
    let mut all: Vec<(String, u64)> = Vec::new();
    let mut i: usize = 0;
    while i < list.len()
        invariant
            i <= list@.len(),
            recs == crate::report::ref_records(list@),
            all@.len() == i,
            forall|k: int|
                0 <= k < i ==> ((#[trigger] all@[k]).0@, all@[k].1) == (
                    recs[k].path,
                    recs[k].size,
                ),
        decreases list@.len() - i,
    {
        assert(recs[i as int] == list@[i as int]@);
        all.push((list[i].path.clone(), list[i].size));
        i += 1;
    }
    assert(recs.len() == list@.len());
    assert(target_views(all@) =~= recs.map_values(|r: Record| (r.path, r.size)));
    let none: Vec<String> = Vec::new();
    assert(views(none@) =~= Seq::empty());
    permitted_targets(platform, env, &all, &none)
}

/// Deletable copies of the selected groups. Guards: the suggested keeper must
/// still exist on disk (otherwise the whole group is skipped), and protected
/// system paths are excluded.
pub fn selected_dupes(
    platform: Platform,
    env: &Env,
    groups: &Vec<DupeGroup>,
    indexes: &Vec<usize>,
    keeper_exists: &Vec<bool>,
) -> (r: Vec<(String, u64)>)
    requires
        keeper_exists@.len() == groups@.len(),
        forall|i: int| 0 <= i < groups@.len() ==> (#[trigger] groups@[i]).has_keeper(),
    ensures
        target_views(r@) == dupe_targets(platform, *env, groups@, indexes@, keeper_exists@),
{
    let mut out: Vec<(String, u64)> = Vec::new();
    let mut i: usize = 0;
    assert(indexes@.take(0) =~= Seq::empty());
    assert(target_views(out@) =~= Seq::empty());
    while i < indexes.len()
        invariant
            i <= indexes@.len(),
            keeper_exists@.len() == groups@.len(),
            forall|k: int| 0 <= k < groups@.len() ==> (#[trigger] groups@[k]).has_keeper(),
            target_views(out@) == dupe_targets(
                platform,
                *env,
                groups@,
                indexes@.take(i as int),
                keeper_exists@,
            ),
        decreases indexes@.len() - i,
    {
        assert(indexes@.take(i + 1).drop_last() =~= indexes@.take(i as int));
        assert(indexes@.take(i + 1).last() == indexes@[i as int]);
        let g: usize = indexes[i];
        if g < groups.len() && keeper_exists[g] {
            assert(groups@[g as int].has_keeper());
            let more: Vec<(String, u64)> = targets_of_group(platform, env, &groups[g]);
            let ghost a = out@;
            let ghost b = more@;
            append_targets(&mut out, more);
            assert(target_views(a + b) =~= target_views(a) + target_views(b));
        }
        i += 1;
    }
    assert(indexes@.take(i as int) =~= indexes@);
    out
}

/// Deletable copies across all groups.
pub fn deletable_targets(
    platform: Platform,
    env: &Env,
    groups: &Vec<DupeGroup>,
    keeper_exists: &Vec<bool>,
) -> (r: Vec<(String, u64)>)
    requires
        keeper_exists@.len() == groups@.len(),
        forall|i: int| 0 <= i < groups@.len() ==> (#[trigger] groups@[i]).has_keeper(),
    ensures
        target_views(r@) == dupe_targets(
            platform,
            *env,
            groups@,
            Seq::new(groups@.len(), |i: int| i as usize),
            keeper_exists@,
        ),
{
    let n: usize = groups.len();
    let mut all: Vec<usize> = Vec::new();
    let mut i: usize = 0;
    while i < n
        invariant
            i <= n,
            all@.len() == i,
            forall|k: int| 0 <= k < i ==> #[trigger] all@[k] == k,
        decreases n - i,
    {
        all.push(i);
        i += 1;
    }
    assert(all@ =~= Seq::new(groups@.len(), |i: int| i as usize));
    selected_dupes(platform, env, groups, &all, keeper_exists)
}

/// The targets of the selected groups, or why there are none.
pub fn dupes_select(
    platform: Platform,
    env: &Env,
    groups: &Vec<DupeGroup>,
    indexes: &Vec<usize>,
    keeper_exists: &Vec<bool>,
) -> (r: Result<Vec<(String, u64)>, String>)
    requires
        keeper_exists@.len() == groups@.len(),
        forall|i: int| 0 <= i < groups@.len() ==> (#[trigger] groups@[i]).has_keeper(),
    ensures
        ({
            let all = dupe_targets(platform, *env, groups@, indexes@, keeper_exists@);
            match r {
                Ok(v) => groups@.len() > 0 && target_views(v@) == all && all.len() > 0,
                Err(e) => if groups@.len() == 0 {
                    e@ == "No scan results. Run a scan first."@
                } else {
                    all.len() == 0 && e@ == "Nothing to delete in the selected groups."@
                },
            }
        }),
{
    if groups.len() == 0 {
        return Err(copy("No scan results. Run a scan first."));
    }
    let out: Vec<(String, u64)> = selected_dupes(platform, env, groups, indexes, keeper_exists);
    assert(target_views(out@).len() == out@.len());
    if out.len() == 0 {
        return Err(copy("Nothing to delete in the selected groups."));
    }
    Ok(out)
}

/// Bytes and files that all groups together waste.
pub open spec fn wasted(groups: Seq<DupeGroup>) -> int
    decreases groups.len(),
{
    if groups.len() == 0 {
        0
    } else {
        wasted(groups.drop_last()) + groups.last().size * (groups.last().members@.len() - 1)
    }
}

pub open spec fn redundant(groups: Seq<DupeGroup>) -> int
    decreases groups.len(),
{
    if groups.len() == 0 {
        0
    } else {
        redundant(groups.drop_last()) + groups.last().members@.len() - 1
    }
}

proof fn lemma_wasted_prefix(groups: Seq<DupeGroup>, i: int)
    requires
        0 <= i <= groups.len(),
        forall|k: int| 0 <= k < groups.len() ==> (#[trigger] groups[k]).wf(),
    ensures
        wasted(groups.take(i)) <= wasted(groups),
        redundant(groups.take(i)) <= redundant(groups),
    decreases groups.len() - i,
{
    if i < groups.len() {
        lemma_wasted_prefix(groups, i + 1);
        assert(groups.take(i + 1).drop_last() =~= groups.take(i));
        let g = groups[i];
        assert(g.wf());
        assert(g.size * (g.members@.len() - 1) >= 0) by (nonlinear_arith)
            requires
                g.size >= 0,
                g.members@.len() >= 2,
        ;
    } else {
        assert(groups.take(i) =~= groups);
    }
}

/// How much all groups together waste: bytes, and redundant files.
pub fn dupe_totals(groups: &Vec<DupeGroup>) -> (r: (u64, usize))
    requires
        forall|i: int| 0 <= i < groups@.len() ==> (#[trigger] groups@[i]).wf(),
        wasted(groups@) <= u64::MAX,
        redundant(groups@) <= usize::MAX,
    ensures
        r.0 == wasted(groups@),
        r.1 == redundant(groups@),
{
    let mut bytes: u64 = 0;
    let mut count: usize = 0;
    let mut i: usize = 0;
    let n: usize = groups.len();
    assert(groups@.take(0) =~= Seq::empty());
    while i < n
        invariant
            i <= n == groups@.len(),
            forall|k: int| 0 <= k < groups@.len() ==> (#[trigger] groups@[k]).wf(),
            wasted(groups@) <= u64::MAX,
            redundant(groups@) <= usize::MAX,
            bytes == wasted(groups@.take(i as int)),
            count == redundant(groups@.take(i as int)),
        decreases n - i,
    {
        proof {
            assert(groups@.take(i + 1).drop_last() =~= groups@.take(i as int));
            lemma_wasted_prefix(groups@, i + 1);
            assert(groups@[i as int].wf());
        }
        let waste: u64 = groups[i].wasted_bytes();
        bytes = bytes + waste;
        count = count + (groups[i].members.len() - 1);
        i += 1;
    }
    assert(groups@.take(n as int) =~= groups@);
    (bytes, count)
}

/// How many duplicate groups are shown at most.
pub const MAX_GROUPS_SHOWN: usize = 500;

#[derive(Debug)]
pub struct MemberRow {
    pub path: String,
    pub keep: bool,
}

#[derive(Debug)]
pub struct DupeRow {
    /// What selects the group.
    pub index: usize,
    pub size: u64,
    pub wasted: u64,
    /// The beginning of the content hash.
    pub hash12: String,
    pub members: Vec<MemberRow>,
}

/// What is shown of a duplicate scan.
#[derive(Debug)]
pub struct DupesSummary {
    pub group_count: usize,
    pub redundant_files: usize,
    pub total_wasted: u64,
    pub truncated: bool,
    pub groups: Vec<DupeRow>,
}

/// A row shows group number `i`, with its keeper marked.
pub open spec fn shows_group(g: DupeGroup, i: int, row: DupeRow) -> bool {
    &&& row.index == i
    &&& row.size == g.size
    &&& row.wasted == g.size * (g.members@.len() - 1)
    &&& row.hash12@ == at_most(g.hash@, 12)
    &&& row.members@.len() == g.members@.len()
    &&& forall|m: int|
        0 <= m < row.members@.len() ==> (#[trigger] row.members@[m]).path@ == g.members@[m].path@
            && row.members@[m].keep == (m == g.suggested_keep)
}

/// The row of one group.
pub fn dupe_row(g: &DupeGroup, index: usize) -> (r: DupeRow)
    requires
        g.wf(),
    ensures
        shows_group(*g, index as int, r),
{
    let mut members: Vec<MemberRow> = Vec::new();
    let mut m: usize = 0;
    while m < g.members.len()
        invariant
            m <= g.members@.len(),
            members@.len() == m,
            forall|k: int|
                0 <= k < m ==> (#[trigger] members@[k]).path@ == g.members@[k].path@
                    && members@[k].keep == (k == g.suggested_keep),
        decreases g.members@.len() - m,
    {
        members.push(
            MemberRow { path: g.members[m].path.clone(), keep: m == g.suggested_keep },
        );
        m += 1;
    }
    let cs: Vec<char> = chars_of(g.hash.as_str());
    let to: usize = if cs.len() < 12 {
        cs.len()
    } else {
        12
    };
    let hash12: String = string_of(&cs, 0, to);
    assert(hash12@ =~= at_most(g.hash@, 12));
    DupeRow { index, size: g.size, wasted: g.wasted_bytes(), hash12, members }
}

/// The totals of all groups, and the rows of the first.
pub fn dupes_summary(groups: &Vec<DupeGroup>) -> (r: DupesSummary)
    requires
        forall|i: int| 0 <= i < groups@.len() ==> (#[trigger] groups@[i]).wf(),
        wasted(groups@) <= u64::MAX,
        redundant(groups@) <= usize::MAX,
    ensures
        r.group_count == groups@.len(),
        r.redundant_files == redundant(groups@),
        r.total_wasted == wasted(groups@),
        r.truncated == (groups@.len() > MAX_GROUPS_SHOWN),
        r.groups@.len() == if groups@.len() > MAX_GROUPS_SHOWN {
            MAX_GROUPS_SHOWN as nat
        } else {
            groups@.len()
        },
        forall|i: int|
            0 <= i < r.groups@.len() ==> shows_group(groups@[i], i, #[trigger] r.groups@[i]),
{
    let (total_wasted, redundant_files) = dupe_totals(groups);
    let n: usize = groups.len();
    let mut rows: Vec<DupeRow> = Vec::new();
    let mut i: usize = 0;
    while i < n && i < MAX_GROUPS_SHOWN
        invariant
            i <= n == groups@.len(),
            i <= MAX_GROUPS_SHOWN,
            rows@.len() == i,
            forall|k: int| 0 <= k < groups@.len() ==> (#[trigger] groups@[k]).wf(),
            forall|k: int| 0 <= k < i ==> shows_group(groups@[k], k, #[trigger] rows@[k]),
        decreases n - i,
    {
        assert(groups@[i as int].wf());
        rows.push(dupe_row(&groups[i], i));
        i += 1;
    }
    DupesSummary {
        group_count: n,
        redundant_files,
        total_wasted,
        truncated: n > MAX_GROUPS_SHOWN,
        groups: rows,
    }
}

/// The survivor of a group is not a target of its own group, unless another
/// member has the very same path.
pub proof fn law_keeper_survives(platform: Platform, env: Env, g: DupeGroup)
    requires
        g.wf(),
        forall|i: int, j: int|
            0 <= i < j < g.members@.len() ==> (#[trigger] g.members@[i]).path@ != (
            #[trigger] g.members@[j]).path@,
    ensures
        forall|i: int|
            0 <= i < group_targets(platform, env, g).len() ==> (#[trigger] group_targets(
                platform,
                env,
                g,
            )[i]).0 != g.members@[g.suggested_keep as int].path@,
{
    let keep = g.suggested_keep as int;
    let recs = records(g.members@);
    let rest = recs.remove(keep).map_values(|r: Record| (r.path, r.size));
    let p = passes(platform, env, Seq::empty());
    let out = group_targets(platform, env, g);
    assert forall|i: int| 0 <= i < out.len() implies (#[trigger] out[i]).0
        != g.members@[keep].path@ by {
        rest.lemma_filter_contains_rev(p, out[i]);
        let j = choose|j: int| 0 <= j < rest.len() && rest[j] == out[i];
        let k = if j < keep {
            j
        } else {
            j + 1
        };
        assert(recs.remove(keep)[j] == recs[k]);
        assert(recs[k] == g.members@[k]@);
        assert(g.members@[k].path@ != g.members@[keep].path@);
    }
}

// --------------------------------------------------------------- artifacts --
/// The artifacts of all projects in one list: the number the user selects is
/// the place in it.
pub open spec fn flat_artifacts(v: Seq<DevProject>) -> Seq<(Seq<char>, u64)>
    decreases v.len(),
{
    if v.len() == 0 {
        Seq::empty()
    } else {
        flat_artifacts(v.drop_last()) + v.last().artifacts@.map_values(
            |a: crate::devscan::DevArtifact| (a.path@, a.bytes),
        )
    }
}

pub fn artifact_list(projects: &Vec<DevProject>) -> (r: Vec<(String, u64)>)
    ensures
        target_views(r@) == flat_artifacts(projects@),
{
    let mut out: Vec<(String, u64)> = Vec::new();
    let mut i: usize = 0;
    assert(projects@.take(0) =~= Seq::empty());
    assert(target_views(out@) =~= Seq::empty());
    while i < projects.len()
        invariant
            i <= projects@.len(),
            target_views(out@) == flat_artifacts(projects@.take(i as int)),
        decreases projects@.len() - i,
    {
        assert(projects@.take(i + 1).drop_last() =~= projects@.take(i as int));
        assert(projects@.take(i + 1).last() == projects@[i as int]);
        let p: &DevProject = &projects[i];
        let ghost more = p.artifacts@.map_values(
            |a: crate::devscan::DevArtifact| (a.path@, a.bytes),
        );
        let ghost start = target_views(out@);
        let mut j: usize = 0;
        assert(start + more.take(0) =~= start);
        while j < p.artifacts.len()
            invariant
                j <= p.artifacts@.len(),
                more == p.artifacts@.map_values(
                    |a: crate::devscan::DevArtifact| (a.path@, a.bytes),
                ),
                target_views(out@) == start + more.take(j as int),
            decreases p.artifacts@.len() - j,
        {
            let ghost t0 = out@;
            out.push((p.artifacts[j].path.clone(), p.artifacts[j].bytes));
            j += 1;
            proof {
                assert(target_views(out@) =~= target_views(t0).push(more[j - 1]));
                assert(start + more.take(j as int) =~= (start + more.take(j - 1)).push(
                    more[j - 1],
                ));
            }
        }
        assert(more.take(j as int) =~= more);
        i += 1;
    }
    assert(projects@.take(i as int) =~= projects@);
    out
}

/// The entries with the given numbers; a number without an entry is passed
/// over.
pub open spec fn picked(v: Seq<(Seq<char>, u64)>, indexes: Seq<usize>) -> Seq<(Seq<char>, u64)>
    decreases indexes.len(),
{
    if indexes.len() == 0 {
        Seq::empty()
    } else {
        let before = picked(v, indexes.drop_last());
        if indexes.last() < v.len() {
            before.push(v[indexes.last() as int])
        } else {
            before
        }
    }
}

/// The selected artifacts. Errors where nothing was scanned, or nothing is
/// selected.
pub fn dev_select(flat: &Vec<(String, u64)>, indexes: &Vec<usize>) -> (r: Result<
    Vec<(String, u64)>,
    String,
>)
    ensures
        match r {
            Ok(v) => flat@.len() > 0 && v@.len() > 0 && target_views(v@) == picked(
                target_views(flat@),
                indexes@,
            ),
            Err(e) => if flat@.len() == 0 {
                e@ == "No scan results. Run a scan first."@
            } else {
                picked(target_views(flat@), indexes@).len() == 0 && e@ == "Nothing selected."@
            },
        },
{
    if flat.len() == 0 {
        return Err(copy("No scan results. Run a scan first."));
    }
    let ghost all = target_views(flat@);
    let mut out: Vec<(String, u64)> = Vec::new();
    let mut i: usize = 0;
    assert(indexes@.take(0) =~= Seq::empty());
    assert(target_views(out@) =~= Seq::empty());
    while i < indexes.len()
        invariant
            i <= indexes@.len(),
            all == target_views(flat@),
            target_views(out@) == picked(all, indexes@.take(i as int)),
        decreases indexes@.len() - i,
    {
        assert(indexes@.take(i + 1).drop_last() =~= indexes@.take(i as int));
        assert(indexes@.take(i + 1).last() == indexes@[i as int]);
        let k: usize = indexes[i];
        if k < flat.len() {
            let ghost before = out@;
            out.push((flat[k].0.clone(), flat[k].1));
            assert(target_views(out@) =~= target_views(before).push(all[k as int]));
        }
        i += 1;
    }
    assert(indexes@.take(i as int) =~= indexes@);
    assert(target_views(out@).len() == out@.len());
    if out.len() == 0 {
        return Err(copy("Nothing selected."));
    }
    Ok(out)
}

/// How many projects are shown.
pub const MAX_DEV_PROJECTS_SHOWN: usize = 300;

/// One artifact as it is shown: the number to select it by, and whether its
/// cleanup is recommended.
#[derive(Debug)]
pub struct DevRow {
    pub index: usize,
    pub recommended: bool,
}

/// What is shown of a scan for artifacts.
#[derive(Debug)]
pub struct DevSummary {
    pub project_count: usize,
    pub artifact_count: usize,
    pub total_bytes: u64,
    pub truncated: bool,
    /// One list for each project that is shown.
    pub rows: Vec<Vec<DevRow>>,
}

pub open spec fn project_bytes() -> spec_fn(DevProject) -> nat {
    |p: DevProject| p.total_bytes as nat
}

/// Where the artifacts of a project start in the list of all.
pub open spec fn offset(v: Seq<DevProject>, p: int) -> nat {
    flat_artifacts(v.take(p)).len()
}

/// The artifacts may be compared with `now`.
pub open spec fn dev_spans_fit(now: i64, v: Seq<DevProject>) -> bool {
    forall|p: int, a: int|
        0 <= p < v.len() && 0 <= a < (#[trigger] v[p]).artifacts@.len() ==> {
            let used = (#[trigger] v[p].artifacts@[a]).last_used_unix;
            used > 0 ==> now - used >= i64::MIN
        }
}

/// The rows of project `p`.
pub open spec fn rows_of(now: i64, v: Seq<DevProject>, p: int, rows: Seq<DevRow>) -> bool {
    &&& rows.len() == v[p].artifacts@.len()
    &&& forall|a: int|
        0 <= a < rows.len() ==> {
            let used = v[p].artifacts@[a].last_used_unix;
            &&& (#[trigger] rows[a]).index == offset(v, p) + a
            &&& rows[a].recommended == (used > 0 && now - used > 30 * 86_400)
        }
}

proof fn lemma_offset(v: Seq<DevProject>, p: int)
    requires
        0 <= p < v.len(),
    ensures
        offset(v, p + 1) == offset(v, p) + v[p].artifacts@.len(),
        offset(v, p + 1) <= flat_artifacts(v).len(),
    decreases v.len() - p,
{
    assert(v.take(p + 1).drop_last() =~= v.take(p));
    assert(v.take(p + 1).last() == v[p]);
    if p + 1 < v.len() {
        lemma_offset(v, p + 1);
    } else {
        assert(v.take(p + 1) =~= v);
    }
}

/// What is shown of a scan: totals over all projects, and the rows of the first
/// 300.
pub fn dev_summary(projects: &Vec<DevProject>, now_unix: i64) -> (r: DevSummary)
    requires
        flat_artifacts(projects@).len() <= usize::MAX,
        sum(projects@, project_bytes()) <= u64::MAX,
        dev_spans_fit(now_unix, projects@),
    ensures
        r.project_count == projects@.len(),
        r.artifact_count == flat_artifacts(projects@).len(),
        r.total_bytes == sum(projects@, project_bytes()),
        r.truncated == (projects@.len() > 300),
        r.rows@.len() == if projects@.len() > 300 {
            300
        } else {
            projects@.len() as int
        },
        forall|p: int|
            0 <= p < r.rows@.len() ==> rows_of(now_unix, projects@, p, (#[trigger] r.rows@[p])@),
{
    let n: usize = projects.len();
    let mut rows: Vec<Vec<DevRow>> = Vec::new();
    let mut count: usize = 0;
    let mut bytes: u64 = 0;
    let mut i: usize = 0;
    assert(projects@.take(0) =~= Seq::empty());
    while i < n
        invariant
            i <= n == projects@.len(),
            flat_artifacts(projects@).len() <= usize::MAX,
            sum(projects@, project_bytes()) <= u64::MAX,
            dev_spans_fit(now_unix, projects@),
            count == offset(projects@, i as int),
            bytes == sum(projects@.take(i as int), project_bytes()),
            rows@.len() == if i > 300 {
                300
            } else {
                i as int
            },
            forall|p: int|
                0 <= p < rows@.len() ==> rows_of(
                    now_unix,
                    projects@,
                    p,
                    (#[trigger] rows@[p])@,
                ),
        decreases n - i,
    {
        let p: &DevProject = &projects[i];
        let m: usize = p.artifacts.len();
        proof {
            lemma_offset(projects@, i as int);
            lemma_sum_take(projects@, project_bytes(), i as int);
        }
        if i < MAX_DEV_PROJECTS_SHOWN {
            let mut list: Vec<DevRow> = Vec::new();
            let mut j: usize = 0;
            while j < m
                invariant
                    j <= m == p.artifacts@.len(),
                    *p == projects@[i as int],
                    i < projects@.len(),
                    dev_spans_fit(now_unix, projects@),
                    count == offset(projects@, i as int),
                    count + m <= usize::MAX,
                    list@.len() == j,
                    forall|a: int|
                        0 <= a < j ==> {
                            let used = p.artifacts@[a].last_used_unix;
                            &&& (#[trigger] list@[a]).index == count + a
                            &&& list@[a].recommended == (used > 0 && now_unix - used > 30
                                * 86_400)
                        },
                decreases m - j,
            {
                assert(projects@[i as int].artifacts@[j as int] == p.artifacts@[j as int]);
                let used: i64 = p.artifacts[j].last_used_unix;
                list.push(
                    DevRow { index: count + j, recommended: is_recommended(now_unix, used) },
                );
                j += 1;
            }
            rows.push(list);
        }
        count = count + m;
        bytes = bytes + p.total_bytes;
        i += 1;
    }
    assert(projects@.take(n as int) =~= projects@);
    DevSummary {
        project_count: n,
        artifact_count: count,
        total_bytes: bytes,
        truncated: n > MAX_DEV_PROJECTS_SHOWN,
        rows,
    }
}

/// The number that is shown with an artifact picks that artifact from the list
/// of all.
pub proof fn law_row_index_picks_its_artifact(v: Seq<DevProject>, p: int, a: int)
    requires
        0 <= p < v.len(),
        0 <= a < v[p].artifacts@.len(),
    ensures
        offset(v, p) + a < flat_artifacts(v).len(),
        flat_artifacts(v)[offset(v, p) + a] == (
            v[p].artifacts@[a].path@,
            v[p].artifacts@[a].bytes,
        ),
    decreases v.len(),
{
    let short = v.drop_last();
    let last = v.last().artifacts@.map_values(
        |x: crate::devscan::DevArtifact| (x.path@, x.bytes),
    );
    if p < short.len() {
        law_row_index_picks_its_artifact(short, p, a);
        assert(short.take(p) =~= v.take(p));
    } else {
        assert(v.take(p) =~= short);
    }
}

// ------------------------------------------------------------------ result --
/// Adds the outcome of one more transaction.
pub fn merge_outcome(total: &mut ApplyOutcome, one: ApplyOutcome)
    requires
        old(total).deleted + one.deleted <= usize::MAX,
        old(total).bytes + one.bytes <= u64::MAX,
    ensures
        final(total).deleted == old(total).deleted + one.deleted,
        final(total).bytes == old(total).bytes + one.bytes,
        final(total).failed@ == old(total).failed@ + one.failed@,
{
    total.deleted = total.deleted + one.deleted;
    total.bytes = total.bytes + one.bytes;
    let mut failed: Vec<(String, String)> = one.failed;
    total.failed.append(&mut failed);
}

/// What is reported of an apply.
#[derive(Debug)]
pub struct ApplyReport {
    pub requested: usize,
    pub deleted: usize,
    pub bytes: u64,
    pub failed: usize,
    pub failed_sample: Vec<(String, String)>,
    /// Running applications holding open handles to the failed files. Empty
    /// when nothing failed or unknown.
    pub holders: Vec<String>,
    /// Rule ids that had at least one file fail to recycle (junk only).
    pub blocked_rules: Vec<String>,
    pub manifest: Option<String>,
}

/// The report on an apply: counts, and the first five failures.
pub fn apply_report(
    requested: usize,
    outcome: ApplyOutcome,
    holders: Vec<String>,
    blocked_rules: Vec<String>,
    manifest: Option<String>,
) -> (r: ApplyReport)
    ensures
        r.requested == requested,
        r.deleted == outcome.deleted,
        r.bytes == outcome.bytes,
        r.failed == outcome.failed@.len(),
        r.failed_sample@ == at_most(outcome.failed@, 5),
        r.holders == holders,
        r.blocked_rules == blocked_rules,
        r.manifest == manifest,
{
    let failed: usize = outcome.failed.len();
    let mut sample: Vec<(String, String)> = outcome.failed;
    if failed > 5 {
        sample.truncate(5);
    }
    assert(sample@ =~= at_most(outcome.failed@, 5));
    ApplyReport {
        requested,
        deleted: outcome.deleted,
        bytes: outcome.bytes,
        failed,
        failed_sample: sample,
        holders,
        blocked_rules,
        manifest,
    }
}

/// The answer that confirms a deletion.
pub fn is_confirmed(line: &str) -> (r: bool)
    ensures
        r == same_ascii(trimmed(line@), "yes"@),
{
    let answer: String = trim(line);
    eq_ignore_ascii_case(answer.as_str(), "yes")
}

} // verus!
