use clean_core::deletion::{
    chunk_end, delete_files_permanently, needs_retry, recycle_files, undo, BinItem, RecycleChunk,
    RecycleItem, RemovedItem, RECYCLE_CHUNK,
};
use clean_core::env::Env;
use clean_core::holders::{in_use_by, list_capacity, wide_paths, Holder};
use clean_core::safety::{
    deletion_allowed, path_style, protected_roots, root_variables, Action, ActionManifest,
    Disposition,
};
use clean_core::paths::PathStyle;
use clean_core::types::Platform;

fn windows_env() -> Env {
    let var = |k: &str, v: &str| (k.to_string(), v.to_string());
    Env {
        vars: vec![
            var("WINDIR", "C:\\Windows"),
            var("ProgramFiles", "C:\\Program Files"),
            var("ProgramFiles(x86)", "C:\\Program Files (x86)"),
            var("ProgramData", "C:\\ProgramData"),
        ],
    }
}

fn no_env() -> Env {
    Env { vars: Vec::new() }
}

fn action(from: &str, disposition: Disposition, size: u64) -> Action {
    Action { from: from.into(), disposition, size, at_unix: 1 }
}

fn missing(path: &str, size: u64) -> RecycleItem {
    RecycleItem {
        path: path.into(),
        abs: path.into(),
        size,
        existed: false,
        gone: true,
        retry_error: None,
    }
}

fn present(path: &str, size: u64) -> RecycleItem {
    RecycleItem { existed: true, ..missing(path, size) }
}

#[test]
fn manifest_roundtrip_and_latest() {
    let mut m = ActionManifest::new(1_700_000_000);
    m.actions.push(action("C:\\x\\y.tmp", Disposition::RecycleBin, 42));
    assert_eq!(m.session_id, "1700000000");
    assert_eq!(m.file_name(), "clean-undo-1700000000.json");
    assert_eq!(
        ActionManifest::latest_in(vec!["readme.txt".into(), m.file_name()]).unwrap(),
        m.file_name()
    );
    let (name, loaded) =
        ActionManifest::latest_restorable_in(vec![(m.file_name(), Some(m))]).unwrap();
    assert_eq!(name, "clean-undo-1700000000.json");
    assert_eq!(loaded.session_id, "1700000000");
    assert_eq!(loaded.actions.len(), 1);
    assert_eq!(loaded.actions[0].size, 42);
}

#[test]
fn latest_in_empty_dir_is_none() {
    assert!(ActionManifest::latest_in(Vec::new()).is_none());
}

#[test]
fn protected_roots_block_deletion() {
    let env = windows_env();
    let allowed =
        |p: &str, bases: &Vec<String>| deletion_allowed(Platform::Windows, &env, p, bases);
    let inside = "C:\\Windows\\System32\\kernel32.dll";
    assert!(!allowed(inside, &vec![]));
    let temp = vec!["C:\\Windows\\Temp".to_string()];
    assert!(allowed("C:\\Windows\\Temp\\x.tmp", &temp));
    assert!(!allowed(inside, &temp));
}

#[test]
fn protected_roots_block_deletion_unix() {
    let allowed = |p: &str| deletion_allowed(Platform::MacOs, &no_env(), p, &vec![]);
    assert!(!allowed("/System/Library/CoreServices/Finder.app"));
    assert!(!allowed("/usr/lib/dyld"));
    assert!(allowed("/Users/someone/Library/Caches/app/blob"));
    assert!(!deletion_allowed(Platform::Other, &no_env(), "/usr/lib/dyld", &vec![]));
}

#[test]
fn user_files_are_deletable() {
    let dupe = "C:\\Users\\someone\\Downloads\\dupe.iso";
    assert!(deletion_allowed(Platform::Windows, &windows_env(), dupe, &vec![]));
    assert!(deletion_allowed(Platform::Other, &no_env(), dupe, &vec![]));
}

#[test]
fn drive_letter_case_does_not_matter() {
    assert!(!deletion_allowed(
        Platform::Windows,
        &windows_env(),
        "c:\\Windows\\explorer.exe",
        &vec![]
    ));
}

#[test]
fn a_neighbour_with_the_same_beginning_is_not_protected() {
    assert!(deletion_allowed(Platform::Windows, &windows_env(), "C:\\WindowsOld\\x", &vec![]));
    assert!(deletion_allowed(Platform::MacOs, &no_env(), "/usrlocal/x", &vec![]));
}

#[test]
fn unset_variables_name_no_root() {
    let all = protected_roots(Platform::Windows, &windows_env());
    assert!(all.iter().any(|r| r == "C:\\Windows"));
    assert!(protected_roots(Platform::Windows, &no_env()).len() < all.len());
    assert_eq!(path_style(Platform::Windows), PathStyle::Windows);
    assert_eq!(path_style(Platform::MacOs), PathStyle::Posix);
}

#[test]
fn recycle_reports_missing_files_as_failed() {
    let mut m = ActionManifest::new(5);
    let chunks = vec![RecycleChunk {
        items: vec![missing("C:\\definitely\\missing\\file-xyz.tmp", 10)],
        batch_ok: true,
    }];
    let out = recycle_files(&chunks, 9, &mut m);
    assert_eq!(out.deleted, 0);
    assert_eq!(out.failed.len(), 1);
    assert!(m.actions.is_empty());
}

#[test]
fn recycle_chunks_report_all_missing_and_final_progress() {
    let total = RECYCLE_CHUNK + 3;
    let paths: Vec<String> =
        (0..total).map(|i| format!("C:\\definitely\\missing\\f{i}.tmp")).collect();
    let mut chunks = Vec::new();
    let mut last = 0usize;
    while last < total {
        let end = chunk_end(last, total);
        chunks.push(RecycleChunk {
            items: paths[last..end].iter().map(|p| missing(p, 1)).collect(),
            batch_ok: true,
        });
        last = end;
    }
    assert_eq!(chunks.len(), 2);
    let mut m = ActionManifest::new(5);
    let out = recycle_files(&chunks, 9, &mut m);
    assert_eq!(out.deleted, 0);
    assert_eq!(out.failed.len(), paths.len());
    assert_eq!(last, paths.len());
    assert!(m.actions.is_empty());
}

#[test]
fn recycled_files_are_recorded() {
    let mut m = ActionManifest::new(5);
    let chunks = vec![RecycleChunk {
        items: vec![present("a.tmp", 3), present("b.tmp", 4)],
        batch_ok: true,
    }];
    let out = recycle_files(&chunks, 9, &mut m);
    assert_eq!((out.deleted, out.bytes, out.failed.len()), (2, 7, 0));
    assert_eq!(m.actions.len(), 2);
    assert_eq!(m.actions[0].at_unix, 9);
    assert!(m.actions.iter().all(|a| a.disposition == Disposition::RecycleBin));
    assert!(m.is_restorable());
}

#[test]
fn a_failed_batch_is_retried_one_by_one() {
    let mut stuck = present("held.tmp", 4);
    stuck.gone = false;
    stuck.retry_error = Some("in use".into());
    assert!(needs_retry(false, &stuck));
    assert!(!needs_retry(true, &present("a.tmp", 3)));
    let mut m = ActionManifest::new(5);
    let chunks = vec![RecycleChunk { items: vec![stuck, present("a.tmp", 3)], batch_ok: false }];
    let out = recycle_files(&chunks, 9, &mut m);
    assert_eq!((out.deleted, out.bytes), (1, 3));
    assert_eq!(out.failed, vec![("held.tmp".to_string(), "in use".to_string())]);
}

#[test]
fn permanent_delete_removes_and_records() {
    let item = |path: &str, error: Option<&str>| RemovedItem {
        path: path.into(),
        abs: path.into(),
        size: 1,
        error: error.map(|e| e.to_string()),
    };
    let items = vec![
        item("/j/junk-0.tmp", None),
        item("/j/junk-1.tmp", None),
        item("/j/junk-2.tmp", None),
        item("C:\\definitely\\missing\\gone.tmp", Some("not found")),
    ];
    let mut m = ActionManifest::new(5);
    let out = delete_files_permanently(&items, 9, &mut m);
    assert_eq!(out.deleted, 3);
    assert_eq!(out.bytes, 3);
    assert_eq!(out.failed.len(), 1);
    assert_eq!(m.actions.len(), 3);
    assert!(m.actions.iter().all(|a| a.disposition == Disposition::Permanent));
    assert!(!m.is_restorable());
}

#[test]
fn latest_restorable_skips_permanent_manifests() {
    let mut older = ActionManifest::new(0);
    older.session_id = "100".into();
    older.actions.push(action("C:\\x\\recycled.tmp", Disposition::RecycleBin, 5));
    let newer = || {
        let mut m = ActionManifest::new(0);
        m.session_id = "200".into();
        m.actions.push(action("C:\\x\\deleted.tmp", Disposition::Permanent, 7));
        m
    };
    let names = vec![older.file_name(), newer().file_name()];
    assert_eq!(ActionManifest::latest_in(names).unwrap(), newer().file_name());
    let (path, m) = ActionManifest::latest_restorable_in(vec![
        (older.file_name(), Some(older)),
        (newer().file_name(), Some(newer())),
    ])
    .unwrap();
    assert!(path.contains("clean-undo-100"));
    assert_eq!(m.actions[0].size, 5);
    assert!(
        ActionManifest::latest_restorable_in(vec![(newer().file_name(), Some(newer()))]).is_none()
    );
}

#[test]
fn the_latest_manifest_has_the_greatest_number() {
    let names = || vec!["clean-undo-1000.json".to_string(), "clean-undo-999.json".to_string()];
    assert_eq!(ActionManifest::latest_in(names()).unwrap(), "clean-undo-1000.json");
    assert_eq!(
        ActionManifest::manifests_in(names()),
        vec!["clean-undo-999.json".to_string(), "clean-undo-1000.json".to_string()]
    );
    assert_eq!(ActionManifest::new(1000).file_name(), "clean-undo-1000.json");
}

#[test]
fn manifests_come_in_session_order() {
    let names = vec![
        "clean-undo-9.json".to_string(),
        "other.json".to_string(),
        "clean-undo-8.json".to_string(),
        "clean-undo-7.txt".to_string(),
    ];
    assert_eq!(
        ActionManifest::manifests_in(names),
        vec!["clean-undo-8.json".to_string(), "clean-undo-9.json".to_string()]
    );
}

#[test]
fn undo_takes_the_newest_copy_and_leaves_occupied_paths() {
    let mut m = ActionManifest::new(5);
    m.actions.push(action("C:\\x\\A.tmp", Disposition::RecycleBin, 1));
    m.actions.push(action("C:\\x\\b.tmp", Disposition::RecycleBin, 1));
    m.actions.push(action("C:\\x\\gone.tmp", Disposition::Permanent, 1));
    let item = |original: &str, occupied: bool, time_deleted: i64| BinItem {
        original: original.into(),
        occupied,
        time_deleted,
    };
    let bin = vec![
        item("C:\\x\\a.tmp", false, 1),
        item("C:\\x\\a.tmp", false, 2),
        item("C:\\x\\b.tmp", true, 3),
        item("C:\\x\\gone.tmp", false, 4),
    ];
    let plan = undo(Platform::Windows, &m, &bin).unwrap();
    assert_eq!(plan.wanted, 2);
    assert_eq!(plan.restore, vec![1]);
    let out = plan.outcome(1, 0);
    assert_eq!((out.restored, out.missing), (1, 1));
    assert!(undo(Platform::MacOs, &m, &bin).is_err());
}

#[test]
fn holders_are_named_once_or_by_their_id() {
    let holder = |process_id: u32, name: &str| Holder {
        process_id,
        app_name: name.encode_utf16().chain([0u16, 7]).collect(),
    };
    let found = vec![holder(4, "Edge"), holder(5, "Edge"), holder(6, "")];
    assert_eq!(in_use_by(Platform::Windows, &found), vec!["Edge".to_string(), "PID 6".to_string()]);
    assert!(in_use_by(Platform::MacOs, &found).is_empty());
    assert_eq!(list_capacity(234, 200), Some(64));
    assert_eq!(list_capacity(0, 3), Some(3));
    assert_eq!(list_capacity(234, 0), None);
    assert_eq!(list_capacity(5, 3), None);
    assert_eq!(wide_paths(&vec!["aé".to_string()]), vec![vec![0x61u16, 0xE9, 0]]);
    assert_eq!(wide_paths(&vec!["x".to_string(); 100]).len(), 64);
}

#[test]
fn protected_roots_ask_for_their_variables() {
    assert_eq!(
        root_variables(Platform::Windows),
        ["WINDIR", "ProgramFiles", "ProgramFiles(x86)", "ProgramData"]
    );
    assert!(root_variables(Platform::MacOs).is_empty());
}
