use clean_core::paths::PathStyle;
use clean_core::scan_cache::{
    cache_file, derive_name_ext, load, prune, save, CachedFile, Snapshot, SnapshotMeta,
};
use clean_core::scanner::ScanOutcome;
use clean_core::types::{FileRecord, SkippedPath};
use clean_core::usn::UsnCheckpoint;

fn rec(id: u64, path: &str, size: u64, is_dir: bool) -> FileRecord {
    let (name, ext) = derive_name_ext(PathStyle::Posix, path, is_dir);
    FileRecord {
        id,
        path: path.to_string(),
        name,
        ext,
        size,
        created: 1_700_000_000 + id as i64,
        modified: 1_700_000_100,
        accessed: -1,
        is_dir,
        attributes: 0x20,
    }
}

fn scanned() -> ScanOutcome {
    ScanOutcome {
        records: vec![
            rec(0, "/r/a.txt", 5, false),
            rec(1, "/r/docs", 0, true),
            rec(2, "/r/docs/Report.PDF", 1024, false),
            rec(3, "/r/docs/嵌套目录", 0, true),
            rec(4, "/r/docs/嵌套目录/中文文件.log", 77, false),
            rec(5, "/r/empty", 0, true),
            rec(6, "/r/noext", 1, false),
        ],
        skipped: Vec::new(),
    }
}

fn snap(outcome: ScanOutcome, root: &str) -> Snapshot {
    Snapshot {
        meta: SnapshotMeta {
            root: root.to_string(),
            excludes: vec!["*.tmp".into()],
            created_unix: 1_755_700_000,
            usn: Some(UsnCheckpoint {
                journal_id: 0x0123_4567_89AB_CDEF,
                next_usn: 42_000_000_007,
                volume_serial: 0xCAFE_F00D,
            }),
        },
        outcome,
    }
}

fn read(bytes: &[u8]) -> Option<Snapshot> {
    load(PathStyle::Posix, bytes)
}

#[test]
fn roundtrip_is_exact() {
    let mut with_skips = scanned();
    with_skips.skipped.push(SkippedPath {
        path: "C:\\locked".into(),
        reason: "Access is denied. (os error 5)".into(),
    });
    let s = snap(with_skips, "/r");
    let loaded = read(&save(&s)).expect("snapshot must load");
    assert_eq!(loaded.meta, s.meta);
    assert_eq!(loaded.outcome.records, s.outcome.records);
    assert_eq!(loaded.outcome.skipped.len(), 1);
    assert_eq!(loaded.outcome.skipped[0].path, "C:\\locked");
}

#[test]
fn roundtrip_without_usn_checkpoint() {
    let mut s = snap(scanned(), "r");
    s.meta.usn = None;
    assert_eq!(read(&save(&s)).unwrap().meta.usn, None);
}

#[test]
fn corrupt_payload_loads_as_none() {
    let mut bytes = save(&snap(scanned(), "r"));
    let mid = 40 + (bytes.len() - 40) / 2;
    bytes[mid] ^= 0xFF;
    assert!(read(&bytes).is_none(), "corrupt snapshot must not load");
}

#[test]
fn truncated_file_loads_as_none() {
    let bytes = save(&snap(scanned(), "r"));
    assert!(read(&bytes[..bytes.len() - 9]).is_none());
    assert!(read(&bytes[..3]).is_none());
    assert!(read(&[]).is_none());
}

#[test]
fn future_format_version_loads_as_none() {
    let mut bytes = save(&snap(scanned(), "r"));
    bytes[4] = 99;
    assert!(read(&bytes).is_none());
}

#[test]
fn cache_file_keyed_by_root_and_excludes() {
    let a = cache_file("C:\\Users\\x", &vec![]);
    let b = cache_file("C:\\Users\\y", &vec![]);
    let c = cache_file("C:\\Users\\x", &vec!["*.log".into()]);
    let a2 = cache_file("c:\\users\\X", &vec![]);
    assert_ne!(a, b);
    assert_ne!(a, c);
    assert_eq!(a, a2, "root casing must not fragment the cache");
}

#[test]
fn prune_keeps_newest() {
    let found = |name: &str, age: u64| CachedFile {
        path: format!("/cache/{name}.cmsc"),
        modified: 1_000_000 - age,
    };
    let gone = prune(PathStyle::Posix, vec![found("a", 300), found("b", 200), found("c", 100)], 2);
    assert_eq!(gone, vec!["/cache/a.cmsc".to_string()]);
}

#[test]
fn prune_looks_at_snapshots_only() {
    let found = |name: &str, modified: u64| CachedFile { path: format!("/cache/{name}"), modified };
    let gone = prune(
        PathStyle::Posix,
        vec![found("notes.txt", 1), found("old.cmsc", 2), found("new.cmsc", 3)],
        1,
    );
    assert_eq!(gone, vec!["/cache/old.cmsc".to_string()]);
}

#[test]
fn cache_name_hashes_the_lower_case_root_and_the_excludes() {
    let hash = |b: &[u8]| format!("{}.cmsc", &blake3::hash(b).to_hex().as_str()[..24]);
    assert_eq!(cache_file("/R", &vec![]), hash(b"/r"));
    assert_eq!(cache_file("/ÄΩ", &vec![]), hash("/äω".as_bytes()));
    assert_eq!(
        cache_file("/r", &vec!["*.log".into(), "*.tmp".into()]),
        hash(b"/r\x00*.log\x00*.tmp")
    );
}

#[test]
fn names_are_derived_from_paths() {
    let of = |p: &str, d: bool| derive_name_ext(PathStyle::Posix, p, d);
    assert_eq!(of("/a/Report.PDF", false), ("Report.PDF".into(), Some("pdf".into())));
    assert_eq!(of("/a/dir.d", true), ("dir.d".into(), None));
    assert_eq!(of("/a/.profile", false), (".profile".into(), None));
    assert_eq!(
        derive_name_ext(PathStyle::Windows, "C:\\a\\b.TXT", false),
        ("b.TXT".into(), Some("txt".into()))
    );
}
