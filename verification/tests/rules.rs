use clean_core::env::Env;
use clean_core::error::CoreError;
use clean_core::paths::PathStyle;
use clean_core::rules::{
    build_include_set, builtin_rules, evaluate_all, evaluate_all_built, evaluate_built,
    evaluate_records, evaluate_rule, expand_env, is_broken_shortcut, JunkCategory, JunkRule,
    MatchPredicate, RiskTier, RulePack, RuleScan,
};
use clean_core::types::{FileRecord, Platform};

const NOW: i64 = 1_800_000_000;

fn rule(includes: &[&str], min_age_days: u32) -> JunkRule {
    rule_pred(includes, min_age_days, MatchPredicate::Glob)
}

fn rule_pred(includes: &[&str], min_age_days: u32, predicate: MatchPredicate) -> JunkRule {
    JunkRule {
        id: "test.rule".into(),
        category: JunkCategory::Temp,
        risk: RiskTier::Safe,
        rationale: "test".into(),
        base: "unused".into(),
        includes: includes.iter().map(|s| s.to_string()).collect(),
        min_age_days,
        predicate,
        default_apply: true,
    }
}

fn item(path: &str, size: u64, modified: i64, is_dir: bool) -> FileRecord {
    let name = path.rsplit('/').next().unwrap().to_string();
    let ext = if is_dir {
        None
    } else {
        name.rsplit_once('.').map(|(_, e)| e.to_lowercase())
    };
    FileRecord {
        id: 0,
        path: path.to_string(),
        name,
        ext,
        size,
        created: modified,
        modified,
        accessed: modified,
        is_dir,
        attributes: 0,
    }
}

fn file(path: &str, size: u64) -> FileRecord {
    item(path, size, NOW - 5 * 86_400, false)
}

fn dir(path: &str) -> FileRecord {
    item(path, 0, NOW - 5 * 86_400, true)
}

fn none_broken(recs: &Vec<FileRecord>) -> Vec<bool> {
    recs.iter().map(|_| false).collect()
}

fn flagged(r: &JunkRule, base: &str, recs: &Vec<FileRecord>, now: i64) -> Vec<String> {
    evaluate_records(PathStyle::Posix, r, base, recs, now, &none_broken(recs))
        .unwrap()
        .iter()
        .map(|f| f.record.path.clone())
        .collect()
}

#[test]
fn matches_only_inside_base_and_pattern() {
    let recs = vec![
        dir("/profile/Cache"),
        dir("/profile/Cache/data"),
        file("/profile/Cache/data/f_0001", 100),
        dir("/profile/Documents"),
        file("/profile/Documents/thesis.docx", 100),
    ];
    let found = flagged(&rule(&["Cache/**"], 0), "/profile", &recs, NOW + 10 * 86_400);
    assert_eq!(found.len(), 1);
    assert!(found[0].ends_with("f_0001"));
}

#[test]
fn min_age_excludes_fresh_files() {
    let recs = vec![item("/b/fresh.tmp", 1, NOW, false)];
    assert!(flagged(&rule(&["**"], 1), "/b", &recs, NOW).is_empty());
    assert_eq!(flagged(&rule(&["**"], 1), "/b", &recs, NOW + 2 * 86_400).len(), 1);
}

#[test]
fn directories_are_never_flagged() {
    let recs = vec![dir("/b/sub"), file("/b/sub/a.tmp", 1)];
    let found =
        evaluate_records(PathStyle::Posix, &rule(&["**"], 0), "/b", &recs, NOW * 2, &vec![false; 2])
            .unwrap();
    assert!(found.iter().all(|f| !f.record.is_dir));
    assert_eq!(found.len(), 1);
}

#[test]
fn records_outside_base_never_match() {
    let recs = vec![file("/b/a.tmp", 1)];
    assert!(flagged(&rule(&["**"], 0), "/b/other-base", &recs, NOW * 2).is_empty());
}

#[test]
fn zero_byte_predicate_flags_only_empty_files() {
    let recs = vec![file("/b/empty.dat", 0), file("/b/full.dat", 7)];
    let found = flagged(&rule_pred(&["**"], 0, MatchPredicate::ZeroByte), "/b", &recs, NOW);
    assert_eq!(found.len(), 1);
    assert!(found[0].ends_with("empty.dat"));
}

#[test]
fn empty_dir_predicate_flags_only_childless_dirs() {
    let recs = vec![
        dir("/b/empty"),
        dir("/b/full"),
        file("/b/full/a.txt", 1),
        dir("/b/outer"),
        dir("/b/outer/inner"),
    ];
    let found = flagged(&rule_pred(&["**"], 0, MatchPredicate::EmptyDir), "/b", &recs, NOW);
    assert_eq!(found, vec!["/b/empty".to_string(), "/b/outer/inner".to_string()]);
}

#[test]
fn broken_shortcut_predicate_needs_missing_target() {
    let recs = vec![file("/b/notreally.lnk", 19)];
    let r = rule_pred(&["**/*.lnk"], 0, MatchPredicate::BrokenShortcut);
    assert!(flagged(&r, "/b", &recs, NOW).is_empty());
    // An unreadable shortcut is left alone; one whose target is gone is not.
    assert!(!is_broken_shortcut(&None, false));
    assert!(!is_broken_shortcut(&Some("C:\\app.exe".to_string()), true));
    assert!(is_broken_shortcut(&Some("C:\\app.exe".to_string()), false));
    let found =
        evaluate_records(PathStyle::Posix, &r, "/b", &recs, NOW, &vec![true]).unwrap();
    assert_eq!(found.len(), 1);
    assert_eq!(found[0].rule_id, "test.rule");
}

#[test]
fn expand_env_replaces_variables() {
    let env = Env {
        vars: vec![("CLEAN_TEST_VAR".to_string(), "value123".to_string())],
    };
    assert_eq!(
        expand_env(&env, "pre\\%CLEAN_TEST_VAR%\\post").as_deref(),
        Some("pre\\value123\\post")
    );
    assert_eq!(expand_env(&env, "no vars here").as_deref(), Some("no vars here"));
    assert!(expand_env(&env, "%CLEAN_TEST_UNSET_VAR_XYZ%").is_none());
}

#[test]
fn include_patterns_ignore_case_and_stop_at_separators() {
    let recs = vec![file("/b/x.TMP", 1), file("/b/sub/y.tmp", 1)];
    assert_eq!(flagged(&rule(&["*.tmp"], 0), "/b", &recs, NOW), vec!["/b/x.TMP".to_string()]);
    assert_eq!(flagged(&rule(&["**/*.tmp"], 0), "/b", &recs, NOW).len(), 2);
}

#[test]
fn bad_include_pattern_is_reported() {
    let recs = vec![file("/b/x.tmp", 1)];
    let err =
        evaluate_records(PathStyle::Posix, &rule(&["a[b"], 0), "/b", &recs, NOW, &vec![false])
            .unwrap_err();
    match &err {
        CoreError::InvalidPattern { pattern, message } => {
            assert_eq!(pattern, "a[b");
            let words = globset::Glob::new("a[b").unwrap_err().to_string();
            assert_eq!(*message, format!("rule test.rule: {words}"));
        }
        _ => panic!("wrong error"),
    }
    assert!(err.message().starts_with("invalid exclude pattern 'a[b': "));
}

#[test]
fn each_platform_gets_its_own_pack() {
    let pack = |name: &str| {
        let mut r = rule(&["**"], 0);
        r.id = name.to_string();
        RulePack { pack: name.to_string(), rules: vec![r] }
    };
    let ids = |p| {
        builtin_rules(p, pack("windows"), pack("macos"))
            .iter()
            .map(|r| r.id.clone())
            .collect::<Vec<_>>()
    };
    assert_eq!(ids(Platform::Windows), vec!["windows".to_string()]);
    assert_eq!(ids(Platform::MacOs), vec!["macos".to_string()]);
    assert!(ids(Platform::Other).is_empty());
}

#[test]
fn reports_total_the_findings_and_drop_absent_bases() {
    let rules = vec![rule(&["*.tmp"], 0), rule(&["**"], 0)];
    let recs = vec![file("/b/a.tmp", 3), file("/b/b.tmp", 4), file("/b/c.txt", 9)];
    let broken = none_broken(&recs);
    let scans = vec![Some(RuleScan { base: "/b".to_string(), records: recs, broken }), None];
    let reports = evaluate_all(PathStyle::Posix, &rules, &scans, NOW);
    assert_eq!(reports.len(), 1);
    assert_eq!(reports[0].bytes, 7);
    assert_eq!(reports[0].findings.len(), 2);
    assert_eq!(reports[0].base, "/b");
}

fn scan_of(base: &str, recs: Vec<FileRecord>) -> RuleScan {
    let broken = none_broken(&recs);
    RuleScan { base: base.to_string(), records: recs, broken }
}

#[test]
fn a_built_set_gives_a_report_and_a_refusal_none() {
    let r = rule(&["*.tmp"], 0);
    let scan = scan_of("/b", vec![file("/b/a.tmp", 3), file("/b/c.txt", 9)]);
    let report = evaluate_built(PathStyle::Posix, &r, build_include_set(&r), &scan, NOW).unwrap();
    assert_eq!((report.bytes, report.findings.len(), report.base.as_str()), (3, 1, "/b"));
    let refused = Err(CoreError::InvalidPattern { pattern: "x".into(), message: "y".into() });
    assert!(evaluate_built(PathStyle::Posix, &r, refused, &scan, NOW).is_none());
    assert_eq!(evaluate_rule(PathStyle::Posix, &r, &scan, NOW).unwrap().bytes, 3);
    assert!(evaluate_rule(PathStyle::Posix, &rule(&["["], 0), &scan, NOW).is_none());
}

#[test]
fn reports_cover_what_was_scanned_and_built() {
    let rules = vec![rule(&["*.tmp"], 0), rule(&["["], 0), rule(&["*.txt"], 0), rule(&["**"], 0)];
    let recs = || vec![file("/b/a.tmp", 3), file("/b/c.txt", 9)];
    let scans = vec![
        Some(scan_of("/b", recs())),
        Some(scan_of("/b", recs())),
        Some(scan_of("/b", recs())),
        None,
    ];
    let built: Vec<_> = rules.iter().map(build_include_set).collect();
    let bytes = |v: Vec<clean_core::rules::RuleReport>| v.iter().map(|r| r.bytes).collect::<Vec<_>>();
    assert_eq!(
        bytes(evaluate_all_built(PathStyle::Posix, &rules, &built, &scans, NOW)),
        vec![3, 9]
    );
    assert_eq!(bytes(evaluate_all(PathStyle::Posix, &rules, &scans, NOW)), vec![3, 9]);
}
