//! What a rule finds, said of the records themselves: everything that it is
//! written for, and nothing else.
use crate::env::Env;
use crate::globs::{any_matches, glob_matches, globs_of, plain, slashed};
use crate::lists::sum;
use crate::paths::{parent, relative, same_path, PathStyle};
use crate::rules::{
    expanded, finding_records, finds, flagged, flagged_records, glob_matched, reports, JunkFinding,
    JunkRule, MatchPredicate, RuleReport, RuleScan,
};
use crate::text::{find_from, lemma_find_from, occurs_at, views};
use crate::types::Record;
use vstd::prelude::*;

verus! {

// ------------------------------------------------------------- completeness --
proof fn lemma_flagged_is_listed(
    style: PathStyle,
    rule: JunkRule,
    base: Seq<char>,
    recs: Seq<Record>,
    now_unix: i64,
    matched: Seq<bool>,
    broken: Seq<bool>,
    n: int,
    i: int,
)
    requires
        0 <= i < n <= recs.len(),
        flagged(style, rule, base, recs, now_unix, matched, broken, i),
    ensures
        flagged_records(style, rule, base, recs, now_unix, matched, broken, n).contains(recs[i]),
    decreases n,
{
    let now = flagged_records(style, rule, base, recs, now_unix, matched, broken, n);
    let before = flagged_records(style, rule, base, recs, now_unix, matched, broken, n - 1);
    if i < n - 1 {
        lemma_flagged_is_listed(
            style,
            rule,
            base,
            recs,
            now_unix,
            matched,
            broken,
            n - 1,
            i,
        );
        let k = choose|k: int| 0 <= k < before.len() && before[k] == recs[i];
        assert(now[k] == recs[i]);
    } else {
        assert(now[before.len() as int] == recs[i]);
    }
}

/// The record lies inside the base, and one of the rule's patterns matches its
/// path from there on.
pub open spec fn named_by(style: PathStyle, rule: JunkRule, base: Seq<char>, r: Record) -> bool {
    relative(style, r.path, base) matches Some(rel) && exists|k: int|
        0 <= k < rule.includes@.len() && glob_matches(
            (#[trigger] rule.includes@[k])@,
            true,
            slashed(style, rel),
        )
}

/// What the names do not depend on: no pattern has a backslash, and neither has
/// the path once separators are slashes.
pub open spec fn free_of_backslashes(
    style: PathStyle,
    rule: JunkRule,
    base: Seq<char>,
    r: Record,
) -> bool {
    &&& forall|k: int| 0 <= k < rule.includes@.len() ==> !(#[trigger] rule.includes@[k])@.contains('\\')
    &&& relative(style, r.path, base) matches Some(rel) ==> !slashed(style, rel).contains('\\')
}

/// Old enough: the last change is the minimum age of the rule ago, or longer.
pub open spec fn old_enough(rule: JunkRule, r: Record, now_unix: i64) -> bool {
    now_unix - r.modified >= rule.min_age_days * 24 * 60 * 60
}

proof fn lemma_named_is_matched(
    style: PathStyle,
    rule: JunkRule,
    base: Seq<char>,
    recs: Seq<Record>,
    matched: Seq<bool>,
    i: int,
)
    requires
        glob_matched(style, globs_of(views(rule.includes@), true), base, recs, matched),
        0 <= i < recs.len(),
        free_of_backslashes(style, rule, base, recs[i]),
    ensures
        matched[i] == named_by(style, rule, base, recs[i]),
{
    let globs = globs_of(views(rule.includes@), true);
    assert forall|k: int| 0 <= k < globs.len() implies plain((#[trigger] globs[k]).0) by {
        assert(globs[k].0 == rule.includes@[k]@);
    }
    let r = recs[i];
    match relative(style, r.path, base) {
        None => {},
        Some(rel) => {
            let path = slashed(style, rel);
            let hits = |g: (Seq<char>, bool)| glob_matches(g.0, g.1, path);
            if any_matches(globs, path) {
                let k = choose|k: int| 0 <= k < globs.len() && hits(#[trigger] globs[k]);
                assert(globs[k] == (rule.includes@[k]@, true));
                assert(glob_matches(rule.includes@[k]@, true, path));
            }
            if named_by(style, rule, base, r) {
                let k = choose|k: int|
                    0 <= k < rule.includes@.len() && glob_matches(
                        (#[trigger] rule.includes@[k])@,
                        true,
                        path,
                    );
                assert(globs[k] == (rule.includes@[k]@, true));
                assert(hits(globs[k]));
            }
        },
    }
}

/// One of the findings is this record, under the name of the rule, in its
/// category and with its risk.
pub open spec fn is_found(rule: JunkRule, found: Seq<JunkFinding>, r: Record) -> bool {
    exists|k: int|
        0 <= k < found.len() && (#[trigger] found[k]).record@ == r && found[k].rule_id@ == rule.id@
            && found[k].category == rule.category && found[k].risk == rule.risk
}

proof fn lemma_found(
    style: PathStyle,
    rule: JunkRule,
    base: Seq<char>,
    recs: Seq<Record>,
    now_unix: i64,
    matched: Seq<bool>,
    broken: Seq<bool>,
    found: Seq<JunkFinding>,
    i: int,
)
    requires
        0 <= i < recs.len(),
        flagged(style, rule, base, recs, now_unix, matched, broken, i),
        crate::rules::labelled(rule, found),
        finding_records(found) == flagged_records(
            style,
            rule,
            base,
            recs,
            now_unix,
            matched,
            broken,
            recs.len() as int,
        ),
    ensures
        is_found(rule, found, recs[i]),
{
    lemma_flagged_is_listed(
        style,
        rule,
        base,
        recs,
        now_unix,
        matched,
        broken,
        recs.len() as int,
        i,
    );
    let all = finding_records(found);
    let k = choose|k: int| 0 <= k < all.len() && all[k] == recs[i];
    assert(found[k].record@ == recs[i]);
}

/// Nothing that a rule is written for is missed. Every file inside the base whose
/// path the patterns match and that is old enough is found by a plain rule,
/// whatever its size; by a rule for empty files, if it has no bytes; by a rule
/// for broken shortcuts, if its target is missing.
pub proof fn law_rule_finds_every_match(
    style: PathStyle,
    rule: JunkRule,
    base: Seq<char>,
    recs: Seq<Record>,
    now_unix: i64,
    broken: Seq<bool>,
    found: Seq<JunkFinding>,
    i: int,
)
    requires
        finds(style, rule, base, recs, now_unix, broken, found),
        0 <= i < recs.len(),
        !recs[i].is_dir,
        free_of_backslashes(style, rule, base, recs[i]),
        named_by(style, rule, base, recs[i]),
        old_enough(rule, recs[i], now_unix),
    ensures
        rule.predicate == MatchPredicate::Glob ==> is_found(rule, found, recs[i]),
        rule.predicate == MatchPredicate::ZeroByte && recs[i].size == 0 ==> is_found(
            rule,
            found,
            recs[i],
        ),
        rule.predicate == MatchPredicate::BrokenShortcut && broken[i] ==> is_found(
            rule,
            found,
            recs[i],
        ),
{
    let matched = choose|matched: Seq<bool>| #[trigger]
        glob_matched(style, globs_of(views(rule.includes@), true), base, recs, matched)
            && finding_records(found) == flagged_records(
            style,
            rule,
            base,
            recs,
            now_unix,
            matched,
            broken,
            recs.len() as int,
        );
    lemma_named_is_matched(style, rule, base, recs, matched, i);
    if rule.predicate == MatchPredicate::Glob || (rule.predicate == MatchPredicate::ZeroByte
        && recs[i].size == 0) || (rule.predicate == MatchPredicate::BrokenShortcut && broken[i]) {
        assert(flagged(style, rule, base, recs, now_unix, matched, broken, i));
        lemma_found(style, rule, base, recs, now_unix, matched, broken, found, i);
    }
}

/// No record has its parent at this path.
pub open spec fn is_childless(style: PathStyle, recs: Seq<Record>, path: Seq<char>) -> bool {
    forall|j: int|
        0 <= j < recs.len() ==> (parent(style, (#[trigger] recs[j]).path) matches Some(p)
            ==> !same_path(style, p, path))
}

/// A rule for empty directories finds every directory below the base, old enough
/// and matched by the patterns, that is no record's parent.
pub proof fn law_rule_finds_every_empty_directory(
    style: PathStyle,
    rule: JunkRule,
    base: Seq<char>,
    recs: Seq<Record>,
    now_unix: i64,
    broken: Seq<bool>,
    found: Seq<JunkFinding>,
    i: int,
)
    requires
        finds(style, rule, base, recs, now_unix, broken, found),
        rule.predicate == MatchPredicate::EmptyDir,
        0 <= i < recs.len(),
        recs[i].is_dir,
        free_of_backslashes(style, rule, base, recs[i]),
        named_by(style, rule, base, recs[i]),
        old_enough(rule, recs[i], now_unix),
        !same_path(style, recs[i].path, base),
        is_childless(style, recs, recs[i].path),
    ensures
        is_found(rule, found, recs[i]),
{
    let matched = choose|matched: Seq<bool>| #[trigger]
        glob_matched(style, globs_of(views(rule.includes@), true), base, recs, matched)
            && finding_records(found) == flagged_records(
            style,
            rule,
            base,
            recs,
            now_unix,
            matched,
            broken,
            recs.len() as int,
        );
    lemma_named_is_matched(style, rule, base, recs, matched, i);
    assert(flagged(style, rule, base, recs, now_unix, matched, broken, i));
    lemma_found(style, rule, base, recs, now_unix, matched, broken, found, i);
}

/// The same for one verdict per record on whether the patterns match: a plain
/// rule flags every file inside its base that is matched and old enough, whatever
/// its size.
pub proof fn law_every_matched_file_is_flagged(
    style: PathStyle,
    rule: JunkRule,
    base: Seq<char>,
    recs: Seq<Record>,
    now_unix: i64,
    matched: Seq<bool>,
    broken: Seq<bool>,
    i: int,
)
    requires
        rule.predicate == MatchPredicate::Glob,
        0 <= i < recs.len(),
        !recs[i].is_dir,
        relative(style, recs[i].path, base) is Some,
        matched[i],
        old_enough(rule, recs[i], now_unix),
    ensures
        flagged_records(
            style,
            rule,
            base,
            recs,
            now_unix,
            matched,
            broken,
            recs.len() as int,
        ).contains(recs[i]),
{
    assert(flagged(style, rule, base, recs, now_unix, matched, broken, i));
    lemma_flagged_is_listed(
        style,
        rule,
        base,
        recs,
        now_unix,
        matched,
        broken,
        recs.len() as int,
        i,
    );
}

// ---------------------------------------------------------------- soundness --
/// The record at `i` is one that the rule is written for.
pub open spec fn is_wanted(
    style: PathStyle,
    rule: JunkRule,
    base: Seq<char>,
    recs: Seq<Record>,
    now_unix: i64,
    broken: Seq<bool>,
    i: int,
) -> bool {
    &&& relative(style, recs[i].path, base) is Some
    &&& free_of_backslashes(style, rule, base, recs[i]) ==> named_by(style, rule, base, recs[i])
    &&& old_enough(rule, recs[i], now_unix)
    &&& match rule.predicate {
        MatchPredicate::Glob => !recs[i].is_dir,
        MatchPredicate::ZeroByte => !recs[i].is_dir && recs[i].size == 0,
        MatchPredicate::BrokenShortcut => !recs[i].is_dir && broken[i],
        MatchPredicate::EmptyDir => recs[i].is_dir && !same_path(style, recs[i].path, base)
            && is_childless(style, recs, recs[i].path),
    }
}

/// One of the records is this one, and the rule is written for it.
pub open spec fn is_wanted_record(
    style: PathStyle,
    rule: JunkRule,
    base: Seq<char>,
    recs: Seq<Record>,
    now_unix: i64,
    broken: Seq<bool>,
    r: Record,
) -> bool {
    exists|i: int|
        0 <= i < recs.len() && #[trigger] recs[i] == r && is_wanted(
            style,
            rule,
            base,
            recs,
            now_unix,
            broken,
            i,
        )
}

/// A rule finds nothing but what it is written for.
pub proof fn law_rule_finds_nothing_else(
    style: PathStyle,
    rule: JunkRule,
    base: Seq<char>,
    recs: Seq<Record>,
    now_unix: i64,
    broken: Seq<bool>,
    found: Seq<JunkFinding>,
    k: int,
)
    requires
        finds(style, rule, base, recs, now_unix, broken, found),
        0 <= k < found.len(),
    ensures
        is_wanted_record(style, rule, base, recs, now_unix, broken, found[k].record@),
{
    let matched = choose|matched: Seq<bool>| #[trigger]
        glob_matched(style, globs_of(views(rule.includes@), true), base, recs, matched)
            && finding_records(found) == flagged_records(
            style,
            rule,
            base,
            recs,
            now_unix,
            matched,
            broken,
            recs.len() as int,
        );
    let all = finding_records(found);
    assert(all[k] == found[k].record@);
    let i = lemma_source(
        style,
        rule,
        base,
        recs,
        now_unix,
        matched,
        broken,
        recs.len() as int,
        k,
    );
    if free_of_backslashes(style, rule, base, recs[i]) {
        lemma_named_is_matched(style, rule, base, recs, matched, i);
    }
    assert(recs[i] == found[k].record@);
    assert(relative(style, recs[i].path, base) is Some);
    if rule.predicate == MatchPredicate::EmptyDir {
        assert(!crate::rules::has_child(style, recs, recs[i].path));
    }
    assert(is_wanted(style, rule, base, recs, now_unix, broken, i));
}

proof fn lemma_source(
    style: PathStyle,
    rule: JunkRule,
    base: Seq<char>,
    recs: Seq<Record>,
    now_unix: i64,
    matched: Seq<bool>,
    broken: Seq<bool>,
    n: int,
    k: int,
) -> (i: int)
    requires
        0 <= n <= recs.len(),
        0 <= k < flagged_records(style, rule, base, recs, now_unix, matched, broken, n).len(),
    ensures
        0 <= i < n,
        recs[i] == flagged_records(style, rule, base, recs, now_unix, matched, broken, n)[k],
        flagged(style, rule, base, recs, now_unix, matched, broken, i),
    decreases n,
{
    let before = flagged_records(style, rule, base, recs, now_unix, matched, broken, n - 1);
    if k < before.len() {
        lemma_source(style, rule, base, recs, now_unix, matched, broken, n - 1, k)
    } else {
        n - 1
    }
}

/// The bytes of a report are those of its findings.
pub proof fn law_report_adds_up_its_findings(
    style: PathStyle,
    rule: JunkRule,
    scan: RuleScan,
    now_unix: i64,
    report: RuleReport,
)
    requires
        reports(style, rule, scan, now_unix, report),
    ensures
        report.bytes == sum(report.findings@, |f: JunkFinding| f.record.size as nat),
        report.base@ == scan.base@,
        report.rule.id@ == rule.id@,
        report.rule.predicate == rule.predicate,
        report.rule.min_age_days == rule.min_age_days,
        report.rule.default_apply == rule.default_apply,
        report.rule.risk == rule.risk,
        report.rule.category == rule.category,
{
    lemma_sizes(report.findings@);
}

proof fn lemma_sizes(found: Seq<JunkFinding>)
    ensures
        sum(finding_records(found), crate::report::record_size()) == sum(
            found,
            |f: JunkFinding| f.record.size as nat,
        ),
    decreases found.len(),
{
    if found.len() > 0 {
        lemma_sizes(found.drop_last());
        assert(finding_records(found).drop_last() =~= finding_records(found.drop_last()));
    }
}

// ------------------------------------------------------------- placeholders --
proof fn lemma_no_percent(s: Seq<char>, from: int)
    requires
        0 <= from,
        forall|k: int| from <= k < s.len() ==> #[trigger] s[k] != '%',
    ensures
        find_from(s, seq!['%'], from) is None,
{
    lemma_find_from(s, seq!['%'], from);
    match find_from(s, seq!['%'], from) {
        Some(i) => {
            assert(s.subrange(i, i + 1)[0] == s[i]);
        },
        None => {},
    }
}

/// The next `%` is found.
pub proof fn lemma_next_percent(s: Seq<char>, from: int, at: int)
    requires
        0 <= from <= at < s.len(),
        s[at] == '%',
        forall|k: int| from <= k < at ==> #[trigger] s[k] != '%',
    ensures
        find_from(s, seq!['%'], from) == Some(at),
{
    let p = seq!['%'];
    lemma_find_from(s, p, from);
    assert(s.subrange(at, at + 1) =~= p);
    assert(occurs_at(s, p, at));
    match find_from(s, p, from) {
        Some(i) => {
            assert(s.subrange(i, i + 1)[0] == s[i]);
        },
        None => {},
    }
}

/// A text without a percent sign.
pub open spec fn without_percent(s: Seq<char>) -> bool {
    forall|k: int| 0 <= k < s.len() ==> #[trigger] s[k] != '%'
}

/// A text without a percent sign stands for itself.
pub proof fn law_plain_text_stands_for_itself(env: Env, s: Seq<char>)
    requires
        without_percent(s),
    ensures
        expanded(env, s) == Some(s),
{
    lemma_no_percent(s, 0);
}

/// A name between two percent signs stands for its value, and what is in front of
/// it and behind it for themselves. Where the variable is not set, or the rest
/// cannot be expanded, there is no expansion.
pub proof fn law_a_name_stands_for_its_value(
    env: Env,
    front: Seq<char>,
    name: Seq<char>,
    rest: Seq<char>,
)
    requires
        without_percent(front),
        without_percent(name),
    ensures
        expanded(env, front + seq!['%'] + name + seq!['%'] + rest) == match (
            env.value(name),
            expanded(env, rest),
        ) {
            (Some(v), Some(r)) => Some(front + v + r),
            _ => None,
        },
{
    let s = front + seq!['%'] + name + seq!['%'] + rest;
    let i = front.len() as int;
    let j = i + 1 + name.len();
    assert(s[i] == '%' && s[j] == '%');
    assert forall|k: int| 0 <= k < i implies #[trigger] s[k] != '%' by {
        assert(s[k] == front[k]);
    }
    assert forall|k: int| i + 1 <= k < j implies #[trigger] s[k] != '%' by {
        assert(s[k] == name[k - i - 1]);
    }
    lemma_next_percent(s, 0, i);
    lemma_next_percent(s, i + 1, j);
    assert(s.subrange(i + 1, j) =~= name);
    assert(s.skip(j + 1) =~= rest);
    assert(s.take(i) =~= front);
}

/// A percent sign without a partner has no expansion.
pub proof fn law_a_lone_percent_is_refused(env: Env, front: Seq<char>, rest: Seq<char>)
    requires
        without_percent(front),
        without_percent(rest),
    ensures
        expanded(env, front + seq!['%'] + rest) is None,
{
    let s = front + seq!['%'] + rest;
    let i = front.len() as int;
    assert forall|k: int| 0 <= k < i implies #[trigger] s[k] != '%' by {
        assert(s[k] == front[k]);
    }
    assert forall|k: int| i + 1 <= k < s.len() implies #[trigger] s[k] != '%' by {
        assert(s[k] == rest[k - i - 1]);
    }
    assert(s[i] == '%');
    lemma_next_percent(s, 0, i);
    lemma_no_percent(s, i + 1);
}

} // verus!
