use clean_core::analysis::{build_analysis, max_dirty, snapshot_age};
use clean_core::deletion::ApplyOutcome;
use clean_core::devscan::{DevArtifact, DevProject};
use clean_core::dupes::DupeGroup;
use clean_core::env::Env;
use clean_core::paths::PathStyle;
use clean_core::rules::{
    JunkCategory, JunkFinding, JunkRule, MatchPredicate, RiskTier, RuleReport,
};
use clean_core::scanner::ScanOutcome;
use clean_core::targets::{
    apply_report, artifact_list, blocked_rules, dev_select, dev_summary, deletable_targets,
    dupe_totals, dupes_select, dupes_summary, is_confirmed, junk_report, junk_select, junk_state, merge_outcome,
    permitted_targets, plain_targets, scan_totals,
};
use clean_core::types::{FileRecord, Platform};

const NOW: i64 = 1_800_000_000;

fn rec(path: &str, size: u64) -> FileRecord {
    FileRecord {
        id: 0,
        path: path.to_string(),
        name: path.rsplit('/').next().unwrap().to_string(),
        ext: Some("tmp".to_string()),
        size,
        created: NOW,
        modified: NOW,
        accessed: NOW,
        is_dir: false,
        attributes: 0,
    }
}

fn report(id: &str, default_apply: bool, files: &[(&str, u64)]) -> RuleReport {
    RuleReport {
        rule: JunkRule {
            id: id.to_string(),
            category: JunkCategory::Temp,
            risk: RiskTier::Safe,
            rationale: String::new(),
            base: "%B%".to_string(),
            includes: vec!["**".to_string()],
            min_age_days: 0,
            predicate: MatchPredicate::Glob,
            default_apply,
        },
        base: format!("/base/{id}"),
        findings: files
            .iter()
            .map(|(p, s)| JunkFinding {
                record: rec(p, *s),
                rule_id: id.to_string(),
                category: JunkCategory::Temp,
                risk: RiskTier::Safe,
            })
            .collect(),
        bytes: files.iter().map(|(_, s)| *s).sum(),
    }
}

fn reports() -> Vec<RuleReport> {
    vec![
        report("a", true, &[("/base/a/1", 10), ("/base/a/2", 20)]),
        report("b", false, &[("/base/b/1", 5)]),
        report("c", true, &[]),
    ]
}

fn no_env() -> Env {
    Env { vars: Vec::new() }
}

fn strings(v: &[&str]) -> Vec<String> {
    v.iter().map(|s| s.to_string()).collect()
}

#[test]
fn optional_rules_are_left_out_unless_asked_for() {
    let r = junk_report(&reports(), false);
    assert_eq!((r.total_files, r.total_bytes, r.skipped_optional), (2, 30, 1));
    assert_eq!(r.targets.len(), 2);
    assert_eq!(r.bases, strings(&["/base/a", "/base/c"]));
    let all = junk_report(&reports(), true);
    assert_eq!((all.total_files, all.total_bytes, all.skipped_optional), (3, 35, 0));
    assert_eq!(scan_totals(&reports()), (3, 35));
}

#[test]
fn selected_rules_give_their_own_targets() {
    let state = junk_state(&reports());
    let plan = junk_select(&state, &strings(&["b", "unknown"])).unwrap();
    assert_eq!(plain_targets(&plan.targets), vec![("/base/b/1".to_string(), 5)]);
    assert_eq!(plan.bases, strings(&["/base/b"]));
    assert_eq!(junk_select(&state, &strings(&["c"])).unwrap_err(), "Nothing selected.");
    assert_eq!(
        junk_select(&Vec::new(), &strings(&["a"])).unwrap_err(),
        "No scan results. Run a scan first."
    );
    let failed = vec![("/base/b/1".to_string(), "in use".to_string())];
    assert_eq!(blocked_rules(&plan.targets, &failed), strings(&["b"]));
    assert!(blocked_rules(&plan.targets, &vec![]).is_empty());
}

#[test]
fn protected_targets_are_dropped() {
    let targets = vec![("/usr/lib/x".to_string(), 1), ("/home/me/x".to_string(), 2)];
    let kept = permitted_targets(Platform::MacOs, &no_env(), &targets, &vec![]);
    assert_eq!(kept, vec![("/home/me/x".to_string(), 2)]);
    let kept = permitted_targets(Platform::MacOs, &no_env(), &targets, &strings(&["/usr/lib"]));
    assert_eq!(kept.len(), 2);
}

fn group(paths: &[&str], keep: usize) -> DupeGroup {
    DupeGroup {
        hash: "h".to_string(),
        size: 8,
        members: paths.iter().map(|p| rec(p, 8)).collect(),
        suggested_keep: keep,
    }
}

#[test]
fn the_keeper_of_a_group_is_never_a_target() {
    let groups = vec![group(&["/u/a", "/u/b", "/usr/lib/c"], 1), group(&["/u/d", "/u/e"], 0)];
    let all = deletable_targets(Platform::MacOs, &no_env(), &groups, &vec![true, true]);
    assert_eq!(all, vec![("/u/a".to_string(), 8), ("/u/e".to_string(), 8)]);
    let some = dupes_select(Platform::MacOs, &no_env(), &groups, &vec![0, 9], &vec![true, true]);
    assert_eq!(some.unwrap(), vec![("/u/a".to_string(), 8)]);
    // Where the keeper is gone, the whole group stays.
    let gone = dupes_select(Platform::MacOs, &no_env(), &groups, &vec![0], &vec![false, true]);
    assert_eq!(gone.unwrap_err(), "Nothing to delete in the selected groups.");
    assert_eq!(
        dupes_select(Platform::MacOs, &no_env(), &vec![], &vec![0], &vec![]).unwrap_err(),
        "No scan results. Run a scan first."
    );
    assert_eq!(dupe_totals(&groups), (24, 3));
}

#[test]
fn duplicate_rows_mark_the_keeper() {
    let mut groups = vec![group(&["/u/a", "/u/b"], 1)];
    groups[0].hash = "0123456789abcdef".to_string();
    let s = dupes_summary(&groups);
    assert_eq!((s.group_count, s.redundant_files, s.total_wasted, s.truncated), (1, 1, 8, false));
    assert_eq!(s.groups[0].hash12, "0123456789ab");
    assert_eq!(s.groups[0].wasted, 8);
    let keeps: Vec<bool> = s.groups[0].members.iter().map(|m| m.keep).collect();
    assert_eq!(keeps, vec![false, true]);
    let many: Vec<DupeGroup> = (0..501).map(|_| group(&["/u/a", "/u/b"], 0)).collect();
    let s = dupes_summary(&many);
    assert!(s.truncated);
    assert_eq!((s.group_count, s.groups.len()), (501, 500));
}

fn project(root: &str, artifacts: &[(&str, u64, i64)]) -> DevProject {
    DevProject {
        root: root.to_string(),
        name: root.to_string(),
        artifacts: artifacts
            .iter()
            .map(|(p, bytes, used)| DevArtifact {
                kind_id: "k".into(),
                kind_label: "K".into(),
                dir_name: "d".into(),
                path: p.to_string(),
                bytes: *bytes,
                files: 1,
                restore_hint: "h".into(),
                last_used_unix: *used,
            })
            .collect(),
        total_bytes: artifacts.iter().map(|(_, b, _)| *b).sum(),
    }
}

#[test]
fn row_numbers_pick_their_artifacts() {
    let projects = vec![
        project("/p", &[("/p/target", 7, NOW - 90 * 86_400), ("/p/node_modules", 3, NOW)]),
        project("/q", &[("/q/target", 1, 0)]),
    ];
    let summary = dev_summary(&projects, NOW);
    assert_eq!((summary.project_count, summary.artifact_count, summary.total_bytes), (2, 3, 11));
    assert!(!summary.truncated);
    let rows: Vec<(usize, bool)> =
        summary.rows.iter().flatten().map(|r| (r.index, r.recommended)).collect();
    assert_eq!(rows, vec![(0, true), (1, false), (2, false)]);
    let flat = artifact_list(&projects);
    assert_eq!(dev_select(&flat, &vec![2, 0]).unwrap().len(), 2);
    assert_eq!(dev_select(&flat, &vec![1]).unwrap(), vec![("/p/node_modules".to_string(), 3)]);
    assert_eq!(dev_select(&flat, &vec![9]).unwrap_err(), "Nothing selected.");
    assert!(dev_select(&Vec::new(), &vec![0]).is_err());
}

#[test]
fn outcomes_add_up() {
    let one = |deleted: usize, bytes: u64, failed: &str| ApplyOutcome {
        deleted,
        bytes,
        failed: vec![(failed.to_string(), "why".to_string())],
    };
    let mut total = one(1, 2, "a");
    merge_outcome(&mut total, one(3, 4, "b"));
    assert_eq!((total.deleted, total.bytes, total.failed.len()), (4, 6, 2));
    let r = apply_report(9, total, strings(&["Edge"]), strings(&["a"]), Some("m.json".into()));
    assert_eq!((r.requested, r.deleted, r.bytes, r.failed), (9, 4, 6, 2));
    assert_eq!(r.holders, strings(&["Edge"]));
    assert_eq!(r.manifest.as_deref(), Some("m.json"));
    assert_eq!(r.failed_sample[0].0, "a");
}

#[test]
fn only_yes_confirms() {
    assert!(is_confirmed(" YES \n"));
    assert!(!is_confirmed("y"));
    assert!(!is_confirmed(""));
}

#[test]
fn analysis_sums_up_a_scan() {
    let outcome = ScanOutcome {
        records: vec![rec("/r/d/big.tmp", 30), rec("/r/small.tmp", 4)],
        skipped: Vec::new(),
    };
    let a = build_analysis(PathStyle::Posix, &outcome, "/r", NOW, true, 5, "delta", 2);
    assert_eq!((a.total_bytes, a.files, a.dirs, a.skipped), (34, 2, 0, 0));
    assert_eq!(a.top_files[0].path, "/r/d/big.tmp");
    assert_eq!(a.top_dirs.len(), 1);
    assert_eq!(a.exts.len(), 1);
    assert_eq!(a.exts[0].top.len(), 2);
    assert_eq!(a.ages[0].bytes, 34);
    assert_eq!((a.cached, a.age_secs, a.method.as_str(), a.delta_dirs), (true, 5, "delta", 2));
    assert_eq!(snapshot_age(NOW, NOW - 9), 9);
    assert_eq!(snapshot_age(NOW, NOW + 9), 0);
    assert!(max_dirty(&outcome.records) > 0);
}
