use clean_core::scanner::ScanOutcome;
use clean_core::session::{Session, DEFAULT_SESSION_FILE, SESSION_VERSION};
use clean_core::types::FileRecord;

fn outcome() -> ScanOutcome {
    let rec = |id: u64, path: &str, size: u64, is_dir: bool| FileRecord {
        id,
        path: path.to_string(),
        name: path.rsplit('/').next().unwrap().to_string(),
        ext: None,
        size,
        created: 1,
        modified: 2,
        accessed: 3,
        is_dir,
        attributes: 0,
    };
    ScanOutcome {
        records: vec![rec(0, "/r/d", 0, true), rec(1, "/r/d/x.txt", 3, false)],
        skipped: Vec::new(),
    }
}

#[test]
fn session_counts_files_and_bytes() {
    let s = Session::from_scan("/r", outcome(), 77);
    assert_eq!(s.version, SESSION_VERSION);
    assert_eq!(s.root, "/r");
    assert_eq!(s.created_unix, 77);
    assert_eq!(s.file_count(), 1);
    assert_eq!(s.dir_count(), 1);
    assert_eq!(s.total_file_bytes(), 3);
    assert_eq!(DEFAULT_SESSION_FILE, "clean-session.json");
}

#[test]
fn current_version_loads_unchanged() {
    let s = Session::from_scan("/r", outcome(), 77);
    let loaded = Session::load(s).unwrap();
    assert_eq!(loaded.records, outcome().records);
}

#[test]
fn other_versions_are_refused() {
    let mut s = Session::from_scan("/r", outcome(), 77);
    s.version = SESSION_VERSION + 1;
    let err = Session::load(s).unwrap_err();
    assert!(err.message().starts_with("session file error: "));
}
