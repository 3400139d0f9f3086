//! What is put up for deletion, said of the findings, groups and artifacts that it
//! comes from.
use crate::dupes::DupeGroup;
use crate::env::Env;
use crate::lists::sum;
use crate::rules::RuleReport;
use crate::safety::may_delete;
use crate::targets::{
    apply_text, chosen_bases, chosen_targets, dupe_targets, group_targets, is_selected, junk_bases,
    junk_bytes, junk_files, junk_targets, passes, picked, redundant, report_targets, rule_of,
    rule_targets, rules_of_failed, wasted, JunkRuleState, JunkTarget,
};
use crate::types::{records, Platform, Record};
use vstd::prelude::*;

verus! {

// --------------------------------------------------------------------- junk --
/// A rule that is on by default is applied; any other only where all are asked
/// for. The table says which is which.
pub proof fn law_which_rules_are_applied(r: RuleReport, all: bool)
    ensures
        is_selected(r, false) <==> r.rule.default_apply,
        is_selected(r, true),
        r.rule.default_apply ==> apply_text(r, all) == "default"@,
        !r.rule.default_apply && all ==> apply_text(r, all) == "opt-in*"@,
        !r.rule.default_apply && !all ==> apply_text(r, all) == "opt-in"@,
{
}

/// Every finding of an applied rule is a target, with its own path and size, and
/// the base of the rule is allowed for it.
pub proof fn law_every_applied_finding_is_a_target(
    v: Seq<RuleReport>,
    all: bool,
    i: int,
    f: int,
)
    requires
        0 <= i < v.len(),
        v[i].rule.default_apply || all,
        0 <= f < v[i].findings@.len(),
    ensures
        junk_targets(v, all).contains(
            (v[i].findings@[f].record.path@, v[i].findings@[f].record.size),
        ),
        junk_bases(v, all).contains(v[i].base@),
    decreases v.len(),
{
    let front = v.drop_last();
    let before = junk_targets(front, all);
    let bases = junk_bases(front, all);
    let t = (v[i].findings@[f].record.path@, v[i].findings@[f].record.size);
    if i < front.len() {
        law_every_applied_finding_is_a_target(front, all, i, f);
        let k = choose|k: int| 0 <= k < before.len() && before[k] == t;
        assert(junk_targets(v, all)[k] == t);
        let b = choose|b: int| 0 <= b < bases.len() && bases[b] == v[i].base@;
        assert(junk_bases(v, all)[b] == v[i].base@);
    } else {
        assert(report_targets(v[i])[f] == t);
        assert(junk_targets(v, all)[before.len() + f] == t);
        assert(junk_bases(v, all)[bases.len() as int] == v[i].base@);
    }
}

/// The target is a finding of this report.
pub open spec fn is_finding_of(r: RuleReport, t: (Seq<char>, u64)) -> bool {
    exists|f: int|
        0 <= f < r.findings@.len() && (#[trigger] r.findings@[f]).record.path@ == t.0
            && r.findings@[f].record.size == t.1
}

/// Nothing else is a target: what a rule finds that is not applied stays.
pub proof fn law_only_applied_findings_are_targets(v: Seq<RuleReport>, all: bool, k: int)
    requires
        0 <= k < junk_targets(v, all).len(),
    ensures
        exists|i: int|
            0 <= i < v.len() && ((#[trigger] v[i]).rule.default_apply || all) && is_finding_of(
                v[i],
                junk_targets(v, all)[k],
            ),
    decreases v.len(),
{
    let front = v.drop_last();
    let before = junk_targets(front, all);
    let t = junk_targets(v, all)[k];
    if k < before.len() {
        law_only_applied_findings_are_targets(front, all, k);
        let i = choose|i: int|
            0 <= i < front.len() && ((#[trigger] front[i]).rule.default_apply || all)
                && is_finding_of(front[i], before[k]);
        assert(v[i] == front[i]);
    } else {
        let f = k - before.len();
        let r = v[v.len() - 1];
        assert(report_targets(r)[f] == t);
        assert(r.findings@[f].record.path@ == t.0);
        assert(is_finding_of(r, t));
    }
}

/// The totals count what is applied: its findings and its bytes.
pub proof fn law_totals_count_what_is_applied(v: Seq<RuleReport>, all: bool)
    ensures
        junk_files(v, all, true) == sum(
            v,
            |r: RuleReport|
                if r.rule.default_apply || all {
                    r.findings@.len()
                } else {
                    0
                },
        ),
        junk_files(v, all, false) == sum(
            v,
            |r: RuleReport|
                if r.rule.default_apply || all {
                    0
                } else {
                    r.findings@.len()
                },
        ),
        junk_bytes(v, all) == sum(
            v,
            |r: RuleReport|
                if (r.rule.default_apply || all) && r.findings@.len() > 0 {
                    r.bytes as nat
                } else {
                    0
                },
        ),
        junk_targets(v, all).len() == junk_files(v, all, true),
    decreases v.len(),
{
    if v.len() > 0 {
        law_totals_count_what_is_applied(v.drop_last(), all);
        assert(report_targets(v.last()).len() == v.last().findings@.len());
    }
}

/// Of the rules that are chosen by their ids every target is taken, with the id,
/// and of the others none.
pub proof fn law_chosen_rules_give_their_targets(
    v: Seq<JunkRuleState>,
    ids: Seq<Seq<char>>,
    i: int,
    t: int,
)
    requires
        0 <= i < v.len(),
        0 <= t < v[i].targets@.len(),
        ids.contains(v[i].id@),
    ensures
        chosen_targets(v, ids).contains((v[i].targets@[t].0@, v[i].targets@[t].1, v[i].id@)),
        chosen_bases(v, ids).contains(v[i].base@),
    decreases v.len(),
{
    let front = v.drop_last();
    let before = chosen_targets(front, ids);
    let bases = chosen_bases(front, ids);
    let x = (v[i].targets@[t].0@, v[i].targets@[t].1, v[i].id@);
    if i < front.len() {
        law_chosen_rules_give_their_targets(front, ids, i, t);
        let k = choose|k: int| 0 <= k < before.len() && before[k] == x;
        assert(chosen_targets(v, ids)[k] == x);
        let b = choose|b: int| 0 <= b < bases.len() && bases[b] == v[i].base@;
        assert(chosen_bases(v, ids)[b] == v[i].base@);
    } else {
        assert(rule_targets(v[i])[t] == x);
        assert(chosen_targets(v, ids)[before.len() + t] == x);
        assert(chosen_bases(v, ids)[bases.len() as int] == v[i].base@);
    }
}

/// Every target that is taken belongs to a rule that was chosen.
pub proof fn law_only_chosen_rules_give_targets(v: Seq<JunkRuleState>, ids: Seq<Seq<char>>)
    ensures
        forall|k: int|
            0 <= k < chosen_targets(v, ids).len() ==> ids.contains(
                (#[trigger] chosen_targets(v, ids)[k]).2,
            ),
    decreases v.len(),
{
    if v.len() > 0 {
        law_only_chosen_rules_give_targets(v.drop_last(), ids);
        let before = chosen_targets(v.drop_last(), ids);
        assert forall|k: int| 0 <= k < chosen_targets(v, ids).len() implies ids.contains(
            (#[trigger] chosen_targets(v, ids)[k]).2,
        ) by {
            if k < before.len() {
                assert(chosen_targets(v, ids)[k] == before[k]);
            } else {
                assert(chosen_targets(v, ids)[k] == rule_targets(v.last())[k - before.len()]);
            }
        }
    }
}

/// Every target that may be deleted is permitted, with its size.
pub proof fn law_everything_deletable_is_permitted(
    platform: Platform,
    env: Env,
    targets: Seq<(Seq<char>, u64)>,
    bases: Seq<Seq<char>>,
    i: int,
)
    requires
        0 <= i < targets.len(),
        may_delete(platform, env, targets[i].0, bases),
    ensures
        targets.filter(passes(platform, env, bases)).contains(targets[i]),
{
    targets.lemma_filter_contains(passes(platform, env, bases), i);
}

/// The rule of every target that failed is named, once.
pub proof fn law_the_rule_of_a_failure_is_named(
    v: Seq<JunkTarget>,
    failed: Seq<(Seq<char>, Seq<char>)>,
    i: int,
)
    requires
        0 <= i < failed.len(),
        rule_of(v, failed[i].0) is Some,
    ensures
        rules_of_failed(v, failed).contains(rule_of(v, failed[i].0)->0),
        rules_of_failed(v, failed).no_duplicates(),
    decreases failed.len(),
{
    let front = failed.drop_last();
    let before = rules_of_failed(v, front);
    let all = rules_of_failed(v, failed);
    let id = rule_of(v, failed[i].0)->0;
    lemma_named_once(v, failed);
    if i < front.len() {
        law_the_rule_of_a_failure_is_named(v, front, i);
        let k = choose|k: int| 0 <= k < before.len() && before[k] == id;
        assert(all[k] == id);
    } else if before.contains(id) {
        assert(all == before);
    } else {
        assert(all[before.len() as int] == id);
    }
}

proof fn lemma_named_once(v: Seq<JunkTarget>, failed: Seq<(Seq<char>, Seq<char>)>)
    ensures
        rules_of_failed(v, failed).no_duplicates(),
    decreases failed.len(),
{
    if failed.len() > 0 {
        lemma_named_once(v, failed.drop_last());
    }
}

/// A path is the target of the rule that put it up, the last one where several
/// did.
pub proof fn law_a_path_has_the_rule_that_put_it_up(v: Seq<JunkTarget>, i: int)
    requires
        0 <= i < v.len(),
        forall|k: int| i < k < v.len() ==> (#[trigger] v[k]).path@ != v[i].path@,
    ensures
        rule_of(v, v[i].path@) == Some(v[i].rule@),
    decreases v.len(),
{
    if i < v.len() - 1 {
        assert(v[v.len() - 1].path@ != v[i].path@);
        let front = v.drop_last();
        assert forall|k: int| i < k < front.len() implies (#[trigger] front[k]).path@
            != front[i].path@ by {
            assert(v[k].path@ != v[i].path@);
        }
        law_a_path_has_the_rule_that_put_it_up(front, i);
    }
}

// --------------------------------------------------------------- duplicates --
/// Every member of a group but the keeper is a target, with its own path and size,
/// where it may be deleted.
pub proof fn law_every_other_copy_is_a_target(
    platform: Platform,
    env: Env,
    g: DupeGroup,
    m: int,
)
    requires
        g.has_keeper(),
        0 <= m < g.members@.len(),
        m != g.suggested_keep,
        may_delete(platform, env, g.members@[m].path@, Seq::empty()),
    ensures
        group_targets(platform, env, g).contains((g.members@[m].path@, g.members@[m].size)),
{
    let keep = g.suggested_keep as int;
    let recs = records(g.members@);
    let rest = recs.remove(keep).map_values(|r: Record| (r.path, r.size));
    let j = if m < keep {
        m
    } else {
        m - 1
    };
    assert(recs.remove(keep)[j] == recs[m]);
    assert(rest[j] == (g.members@[m].path@, g.members@[m].size));
    rest.lemma_filter_contains(passes(platform, env, Seq::empty()), j);
}

/// Of the groups that are selected those give their targets whose keeper is still
/// there, and only those.
pub proof fn law_only_groups_with_their_keeper_are_deleted(
    platform: Platform,
    env: Env,
    groups: Seq<DupeGroup>,
    indexes: Seq<usize>,
    keeper_exists: Seq<bool>,
    t: (Seq<char>, u64),
)
    ensures
        dupe_targets(platform, env, groups, indexes, keeper_exists).contains(t) <==> exists|k: int|
            0 <= k < indexes.len() && (#[trigger] indexes[k]) < groups.len()
                && keeper_exists[indexes[k] as int] && group_targets(
                platform,
                env,
                groups[indexes[k] as int],
            ).contains(t),
    decreases indexes.len(),
{
    let all = dupe_targets(platform, env, groups, indexes, keeper_exists);
    if indexes.len() > 0 {
        let front = indexes.drop_last();
        let before = dupe_targets(platform, env, groups, front, keeper_exists);
        let i = indexes.last() as int;
        let n = indexes.len() - 1;
        law_only_groups_with_their_keeper_are_deleted(
            platform,
            env,
            groups,
            front,
            keeper_exists,
            t,
        );
        let there = i < groups.len() && keeper_exists[i];
        let more = group_targets(platform, env, groups[i]);
        assert(all.contains(t) <==> before.contains(t) || (there && more.contains(t))) by {
            if there {
                assert(all == before + more);
                if before.contains(t) {
                    let k = choose|k: int| 0 <= k < before.len() && before[k] == t;
                    assert(all[k] == t);
                }
                if more.contains(t) {
                    let k = choose|k: int| 0 <= k < more.len() && more[k] == t;
                    assert(all[before.len() + k] == t);
                }
                if all.contains(t) {
                    let k = choose|k: int| 0 <= k < all.len() && all[k] == t;
                    if k < before.len() {
                        assert(before[k] == t);
                    } else {
                        assert(more[k - before.len()] == t);
                    }
                }
            }
        }
        if before.contains(t) {
            let k = choose|k: int|
                0 <= k < front.len() && (#[trigger] front[k]) < groups.len()
                    && keeper_exists[front[k] as int] && group_targets(
                    platform,
                    env,
                    groups[front[k] as int],
                ).contains(t);
            assert(indexes[k] == front[k]);
        }
        if there && more.contains(t) {
            assert(indexes[n] == i);
        }
        if exists|k: int|
            0 <= k < indexes.len() && (#[trigger] indexes[k]) < groups.len()
                && keeper_exists[indexes[k] as int] && group_targets(
                platform,
                env,
                groups[indexes[k] as int],
            ).contains(t) {
            let k = choose|k: int|
                0 <= k < indexes.len() && (#[trigger] indexes[k]) < groups.len()
                    && keeper_exists[indexes[k] as int] && group_targets(
                    platform,
                    env,
                    groups[indexes[k] as int],
                ).contains(t);
            if k < n {
                assert(front[k] == indexes[k]);
            }
        }
    }
}

/// Deleting all copies but one of each group frees the size of the group for each
/// of them, and that many files are redundant.
pub proof fn law_totals_leave_one_copy_of_each(groups: Seq<DupeGroup>)
    requires
        forall|i: int| 0 <= i < groups.len() ==> (#[trigger] groups[i]).wf(),
    ensures
        wasted(groups) == sum(
            groups,
            |g: DupeGroup| (g.size * (g.members@.len() - 1)) as nat,
        ),
        redundant(groups) == sum(groups, |g: DupeGroup| (g.members@.len() - 1) as nat),
    decreases groups.len(),
{
    if groups.len() > 0 {
        let front = groups.drop_last();
        assert forall|i: int| 0 <= i < front.len() implies (#[trigger] front[i]).wf() by {
            assert(front[i] == groups[i]);
        }
        law_totals_leave_one_copy_of_each(front);
        let g = groups.last();
        assert(g == groups[groups.len() - 1]);
        assert(g.wf());
        assert(g.size * (g.members@.len() - 1) >= 0) by (nonlinear_arith)
            requires
                g.members@.len() >= 2,
        ;
    }
}

// ---------------------------------------------------------------- artifacts --
/// A number picks the item at its place, as often as it is given; a number beyond
/// the list picks nothing.
pub proof fn law_numbers_pick_their_items(
    v: Seq<(Seq<char>, u64)>,
    indexes: Seq<usize>,
    t: (Seq<char>, u64),
)
    ensures
        picked(v, indexes).contains(t) <==> exists|k: int|
            0 <= k < indexes.len() && (#[trigger] indexes[k]) < v.len() && v[indexes[k] as int]
                == t,
        picked(v, indexes).len() <= indexes.len(),
    decreases indexes.len(),
{
    let all = picked(v, indexes);
    if indexes.len() > 0 {
        let front = indexes.drop_last();
        let before = picked(v, front);
        let n = indexes.len() - 1;
        law_numbers_pick_their_items(v, front, t);
        if before.contains(t) {
            let j = choose|j: int| 0 <= j < before.len() && before[j] == t;
            assert(all[j] == t);
            let k = choose|k: int|
                0 <= k < front.len() && (#[trigger] front[k]) < v.len() && v[front[k] as int] == t;
            assert(indexes[k] == front[k]);
        }
        if indexes[n] < v.len() && v[indexes[n] as int] == t {
            assert(all[before.len() as int] == t);
        }
        if all.contains(t) && !before.contains(t) {
            let j = choose|j: int| 0 <= j < all.len() && all[j] == t;
            if j < before.len() {
                assert(before[j] == t);
            }
            assert(indexes[n] < v.len());
        }
        if exists|k: int|
            0 <= k < indexes.len() && (#[trigger] indexes[k]) < v.len() && v[indexes[k] as int]
                == t {
            let k = choose|k: int|
                0 <= k < indexes.len() && (#[trigger] indexes[k]) < v.len() && v[indexes[k] as int]
                    == t;
            if k < n {
                assert(front[k] == indexes[k]);
            }
        }
    }
}

} // verus!
