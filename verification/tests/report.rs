use clean_core::paths::PathStyle;
use clean_core::report::{by_age, by_extension, top_dirs, top_files, top_files_of_ext};
use clean_core::types::{systime_to_unix, FileRecord, FileTime};

const NOW: i64 = 1_800_000_000;

fn rec(id: u64, path: &str, size: u64, modified: i64, is_dir: bool) -> FileRecord {
    let name = path.rsplit('/').next().unwrap().to_string();
    let ext = if is_dir {
        None
    } else {
        name.rsplit_once('.').map(|(_, e)| e.to_lowercase())
    };
    FileRecord {
        id,
        path: path.to_string(),
        name,
        ext,
        size,
        created: modified,
        modified,
        accessed: modified,
        is_dir,
        attributes: 0,
    }
}

fn fixture() -> Vec<FileRecord> {
    vec![
        rec(0, "/root/docs", 0, NOW, true),
        rec(1, "/root/docs/big.pdf", 5000, NOW - 10 * 86400, false),
        rec(2, "/root/docs/old.pdf", 3000, NOW - 400 * 86400, false),
        rec(3, "/root/cache", 0, NOW, true),
        rec(4, "/root/cache/a.log", 1000, NOW - 50 * 86400, false),
        rec(5, "/root/noext", 200, NOW - 900 * 86400, false),
    ]
}

#[test]
fn top_files_sorted_desc() {
    let recs = fixture();
    let top = top_files(&recs, 2);
    assert_eq!(top.len(), 2);
    assert_eq!(top[0].name, "big.pdf");
    assert_eq!(top[1].name, "old.pdf");
}

#[test]
fn top_dirs_cumulative() {
    let recs = fixture();
    let dirs = top_dirs(PathStyle::Posix, &recs, "/root", 10);
    let docs = dirs.iter().find(|d| d.path.ends_with("docs")).unwrap();
    assert_eq!(docs.bytes, 8000);
    assert_eq!(docs.files, 2);
    let cache = dirs.iter().find(|d| d.path.ends_with("cache")).unwrap();
    assert_eq!(cache.bytes, 1000);
    assert_eq!(dirs.len(), 2);
    assert_eq!(dirs[0].path, docs.path);
}

#[test]
fn by_extension_groups_and_sorts() {
    let recs = fixture();
    let exts = by_extension(&recs, 10);
    assert_eq!(exts[0].ext, "pdf");
    assert_eq!(exts[0].count, 2);
    assert_eq!(exts[0].bytes, 8000);
    assert!(exts.iter().any(|e| e.ext == "(none)" && e.bytes == 200));
}

#[test]
fn by_age_buckets() {
    let recs = fixture();
    let ages = by_age(&recs, NOW);
    assert_eq!(ages[0].bytes, 5000);
    assert_eq!(ages[1].bytes, 1000);
    assert_eq!(ages[3].bytes, 3000);
    assert_eq!(ages[4].bytes, 200);
    assert_eq!(ages[2].bytes, 0);
}

#[test]
fn age_buckets_hold_every_file_once() {
    let recs = fixture();
    let ages = by_age(&recs, NOW);
    assert_eq!(ages.iter().map(|a| a.count).sum::<u64>(), 4);
    assert_eq!(ages.iter().map(|a| a.bytes).sum::<u64>(), 9200);
}

#[test]
fn directories_add_up_through_every_level() {
    let recs = vec![
        rec(0, "/r/a", 0, NOW, true),
        rec(1, "/r/a/b", 0, NOW, true),
        rec(2, "/r/a/b/x.bin", 7, NOW, false),
        rec(3, "/r/a/y.bin", 5, NOW, false),
    ];
    let dirs = top_dirs(PathStyle::Posix, &recs, "/r", 10);
    assert_eq!(dirs.len(), 2);
    assert_eq!((dirs[0].path.as_str(), dirs[0].bytes, dirs[0].files), ("/r/a", 12, 2));
    assert_eq!((dirs[1].path.as_str(), dirs[1].bytes, dirs[1].files), ("/r/a/b", 7, 1));
}

#[test]
fn windows_paths_split_at_both_separators() {
    let mut r = rec(0, "x.bin", 9, NOW, false);
    r.path = "C:\\data/sub\\x.bin".to_string();
    let dirs = top_dirs(PathStyle::Windows, &vec![r], "C:\\data", 10);
    assert_eq!(dirs.len(), 1);
    assert_eq!(dirs[0].bytes, 9);
    assert!(dirs[0].path.ends_with("sub"));
}

#[test]
fn files_of_one_extension_come_biggest_first() {
    let recs = fixture();
    let pdfs = top_files_of_ext(&recs, "pdf", 10);
    assert_eq!(pdfs.iter().map(|r| r.size).collect::<Vec<_>>(), vec![5000, 3000]);
    assert_eq!(top_files_of_ext(&recs, "(none)", 10).len(), 1);
    assert_eq!(top_files_of_ext(&recs, "pdf", 1).len(), 1);
}

#[test]
fn unreadable_times_count_as_zero_and_early_ones_as_negative() {
    assert_eq!(systime_to_unix(FileTime::Unknown), 0);
    assert_eq!(systime_to_unix(FileTime::Before { secs: 5 }), -5);
    assert_eq!(systime_to_unix(FileTime::After { secs: 12 }), 12);
}
