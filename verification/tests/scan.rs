use clean_core::error::CoreError;
use clean_core::merge::merge_scan;
use clean_core::paths::PathStyle;
use clean_core::scanner::{
    enumerate_dir, finalize, unreadable_dir, DirEntry, DirListing, EntryKind, EntryMeta,
    ScanOptions, ScanOutcome, Walk,
};

const ROOT: &str = "/Data/root";

/// A directory tree in memory: paths with a size for files, none for
/// directories, and a list of directories that cannot be read.
struct Tree {
    nodes: Vec<(String, Option<u64>)>,
    locked: Vec<String>,
}

fn parent(path: &str) -> &str {
    path.rsplit_once('/').unwrap().0
}

impl Tree {
    fn fixture() -> Tree {
        let mut t = Tree { nodes: Vec::new(), locked: Vec::new() };
        t.dir("docs");
        t.dir("cache");
        t.dir("cache/deep");
        t.file("a.txt", 5);
        t.file("docs/report.pdf", 1024);
        t.file("cache/tmp.log", 2048);
        t.file("cache/deep/blob.bin", 4096);
        t
    }

    fn dir(&mut self, path: &str) {
        self.nodes.push((format!("{ROOT}/{path}"), None));
    }

    fn file(&mut self, path: &str, size: u64) {
        self.remove(path);
        self.nodes.push((format!("{ROOT}/{path}"), Some(size)));
    }

    fn remove(&mut self, path: &str) {
        let full = format!("{ROOT}/{path}");
        let inside = format!("{full}/");
        self.nodes.retain(|(p, _)| *p != full && !p.starts_with(&inside));
    }

    fn rename(&mut self, from: &str, to: &str) {
        let full = format!("{ROOT}/{from}");
        for (p, _) in self.nodes.iter_mut() {
            if let Some(rest) = p.strip_prefix(&full) {
                *p = format!("{ROOT}/{to}{rest}");
            }
        }
    }

    fn entries(&self, dir: &str) -> Vec<DirEntry> {
        self.nodes
            .iter()
            .filter(|(p, _)| parent(p) == dir)
            .map(|(p, size)| DirEntry::Found {
                path: p.clone(),
                name: p[parent(p).len() + 1..].to_string(),
                kind: Ok(if size.is_some() { EntryKind::File } else { EntryKind::Directory }),
                meta: Ok(EntryMeta {
                    len: size.unwrap_or(0),
                    created: 10,
                    modified: 20,
                    accessed: 30,
                    attributes: 0,
                }),
            })
            .collect()
    }

    fn list(&self, dir: &str, excludes: &Option<globset::GlobSet>) -> DirListing {
        if self.locked.iter().any(|l| l == dir) {
            unreadable_dir(dir, "permission denied")
        } else {
            enumerate_dir(PathStyle::Posix, dir, &self.entries(dir), excludes)
        }
    }
}

fn scan(tree: &Tree, excludes: &[&str]) -> ScanOutcome {
    let opts = ScanOptions { excludes: excludes.iter().map(|s| s.to_string()).collect() };
    let (mut walk, set) = Walk::start(ROOT, true, &opts).unwrap();
    while !walk.todo.is_empty() {
        let read = walk.todo.iter().map(|d| tree.list(d, &set)).collect();
        walk.feed(read);
    }
    finalize(walk.outcome)
}

fn merge(tree: &Tree, snapshot: ScanOutcome, dirty: &[String]) -> (ScanOutcome, u64) {
    let lower: Vec<String> = dirty.iter().map(|s| s.to_lowercase()).collect();
    let opts = ScanOptions::default();
    let (mut m, excludes) =
        merge_scan(PathStyle::Posix, ROOT, true, &opts, snapshot, &lower).ok().unwrap();
    assert!(excludes.is_none());
    while !m.is_done() {
        let read = m.to_read().iter().map(|d| tree.list(d, &None)).collect();
        m.feed(read);
    }
    m.finish()
}

fn under(path: &str) -> String {
    format!("{ROOT}/{path}")
}

#[test]
fn scans_all_files_and_dirs() {
    let out = scan(&Tree::fixture(), &[]);
    let files: Vec<_> = out.records.iter().filter(|r| !r.is_dir).collect();
    let dirs: Vec<_> = out.records.iter().filter(|r| r.is_dir).collect();
    assert_eq!(files.len(), 4);
    assert_eq!(dirs.len(), 3);
    assert!(out.skipped.is_empty());
    let total: u64 = files.iter().map(|r| r.size).sum();
    assert_eq!(total, 5 + 1024 + 2048 + 4096);
}

#[test]
fn captures_metadata() {
    let out = scan(&Tree::fixture(), &[]);
    let pdf = out.records.iter().find(|r| r.name == "report.pdf").unwrap();
    assert_eq!(pdf.ext.as_deref(), Some("pdf"));
    assert_eq!(pdf.size, 1024);
    assert!(pdf.modified > 0);
    assert!(!pdf.is_dir);
    assert_eq!((pdf.created, pdf.modified, pdf.accessed), (10, 20, 30));
}

#[test]
fn exclude_globs_filter_paths() {
    let out = scan(&Tree::fixture(), &["*.log"]);
    assert!(out.records.iter().all(|r| r.name != "tmp.log"));
    assert!(out.records.iter().any(|r| r.name == "blob.bin"));
}

#[test]
fn exclude_directory_subtree() {
    let out = scan(&Tree::fixture(), &["*cache*"]);
    assert!(out.records.iter().all(|r| !r.path.contains("cache")));
    assert!(out.records.iter().any(|r| r.name == "a.txt"));
}

#[test]
fn exclude_patterns_ignore_case() {
    let out = scan(&Tree::fixture(), &["*.PDF"]);
    assert!(out.records.iter().all(|r| r.name != "report.pdf"));
}

#[test]
fn invalid_root_errors() {
    let err = match Walk::start("Z:\\definitely\\missing\\root", false, &ScanOptions::default()) {
        Err(e) => e,
        Ok(_) => panic!("a missing root must not be scanned"),
    };
    assert!(matches!(&err, CoreError::InvalidRoot(p) if p == "Z:\\definitely\\missing\\root"));
    assert_eq!(
        err.message(),
        "scan root does not exist or is not accessible: Z:\\definitely\\missing\\root"
    );
}

#[test]
fn invalid_exclude_pattern_errors() {
    let opts = ScanOptions { excludes: vec!["ok*".into(), "a{b".into()] };
    match Walk::start(ROOT, true, &opts) {
        Err(CoreError::InvalidPattern { pattern, .. }) => assert_eq!(pattern, "a{b"),
        _ => panic!("an unclosed alternation must be refused"),
    }
}

#[test]
fn ids_are_sequential_and_order_deterministic() {
    let mut turned = Tree::fixture();
    turned.nodes.reverse();
    let out1 = scan(&Tree::fixture(), &[]);
    let out2 = scan(&turned, &[]);
    for (i, r) in out1.records.iter().enumerate() {
        assert_eq!(r.id, i as u64);
    }
    let paths1: Vec<_> = out1.records.iter().map(|r| &r.path).collect();
    let paths2: Vec<_> = out2.records.iter().map(|r| &r.path).collect();
    assert_eq!(paths1, paths2);
}

#[test]
fn progress_reports_growing_counts() {
    let tree = Tree::fixture();
    let mut walk = Walk::new(ROOT);
    let mut seen = vec![walk.seen()];
    while !walk.todo.is_empty() {
        let read = walk.todo.iter().map(|d| tree.list(d, &None)).collect();
        walk.feed(read);
        seen.push(walk.seen());
    }
    assert!(seen.windows(2).all(|w| w[0] <= w[1]));
    assert_eq!(*seen.iter().max().unwrap(), 7);
}

#[test]
fn unreadable_directories_are_noted() {
    let mut tree = Tree::fixture();
    tree.locked.push(under("cache"));
    let out = scan(&tree, &[]);
    assert_eq!(out.skipped.len(), 1);
    assert_eq!(out.skipped[0].path, under("cache"));
    assert_eq!(out.skipped[0].reason, "permission denied");
    assert_eq!(out.records.len(), 4);
}

#[test]
fn links_and_unreadable_entries_are_not_recorded() {
    let found = |name: &str, kind: Result<EntryKind, String>, meta: Result<EntryMeta, String>| {
        DirEntry::Found { path: format!("/d/{name}"), name: name.to_string(), kind, meta }
    };
    let meta = EntryMeta { len: 1, created: 0, modified: 0, accessed: 0, attributes: 0 };
    let listing = enumerate_dir(
        PathStyle::Posix,
        "/d",
        &vec![
            DirEntry::Unreadable { reason: "io".into() },
            found("link", Ok(EntryKind::Link), Ok(meta)),
            found("kind", Err("no type".into()), Ok(meta)),
            found("meta", Ok(EntryKind::File), Err("no meta".into())),
            found("file.TXT", Ok(EntryKind::File), Ok(meta)),
        ],
        &None,
    );
    assert_eq!(listing.records.len(), 1);
    assert_eq!(listing.records[0].ext.as_deref(), Some("txt"));
    let notes: Vec<_> =
        listing.skipped.iter().map(|s| (s.path.as_str(), s.reason.as_str())).collect();
    assert_eq!(notes[0], ("/d", "io"));
    assert!(notes.contains(&("/d/kind", "no type")));
    assert!(notes.contains(&("/d/meta", "no meta")));
    assert!(listing.subdirs.is_empty());
}

#[test]
fn merge_with_all_dirs_dirty_equals_full_scan() {
    let tree = Tree::fixture();
    let snap = scan(&tree, &[]);
    let mut dirty: Vec<String> =
        snap.records.iter().filter(|r| r.is_dir).map(|r| r.path.clone()).collect();
    dirty.push(ROOT.to_string());
    let (merged, live) = merge(&tree, snap, &dirty);
    assert_eq!(merged.records, scan(&tree, &[]).records);
    assert_eq!(live, 4, "root + 3 subdirs all enumerated live");
}

#[test]
fn merge_with_nothing_dirty_serves_snapshot_verbatim() {
    let tree = Tree::fixture();
    let (merged, live) = merge(&tree, scan(&tree, &[]), &[]);
    assert_eq!(merged.records, scan(&tree, &[]).records);
    assert_eq!(live, 0, "no directory may be touched");
}

#[test]
fn merge_without_dirty_mark_stays_stale() {
    let mut tree = Tree::fixture();
    let snap = scan(&tree, &[]);
    tree.file("cache/tmp.log", 9999);
    let (merged, _) = merge(&tree, snap, &[]);
    let old = merged.records.iter().find(|r| r.name == "tmp.log").unwrap();
    assert_eq!(old.size, 2048, "stale by design without a dirty mark");
}

#[test]
fn merge_picks_up_modified_file_in_dirty_dir() {
    let mut tree = Tree::fixture();
    let snap = scan(&tree, &[]);
    tree.file("cache/tmp.log", 9999);
    let (merged, live) = merge(&tree, snap, &[under("cache")]);
    assert_eq!(merged.records, scan(&tree, &[]).records);
    assert_eq!(live, 1);
    let rec = merged.records.iter().find(|r| r.name == "tmp.log").unwrap();
    assert_eq!(rec.size, 9999);
}

#[test]
fn merge_picks_up_added_and_deleted_files() {
    let mut tree = Tree::fixture();
    let snap = scan(&tree, &[]);
    tree.remove("a.txt");
    tree.file("docs/new.bin", 12);
    let (merged, _) = merge(&tree, snap, &[ROOT.to_string(), under("docs")]);
    assert_eq!(merged.records, scan(&tree, &[]).records);
    assert!(merged.records.iter().all(|r| r.name != "a.txt"));
    assert!(merged.records.iter().any(|r| r.name == "new.bin"));
}

#[test]
fn merge_walks_brand_new_subtree() {
    let mut tree = Tree::fixture();
    let snap = scan(&tree, &[]);
    tree.dir("cache/newdir");
    tree.dir("cache/newdir/sub");
    tree.file("cache/newdir/sub/fresh.dat", 42);
    let (merged, live) = merge(&tree, snap, &[under("cache")]);
    assert_eq!(merged.records, scan(&tree, &[]).records);
    assert_eq!(live, 3, "cache + newdir + sub");
    assert!(merged.records.iter().any(|r| r.name == "fresh.dat"));
}

#[test]
fn merge_handles_renamed_directory() {
    let mut tree = Tree::fixture();
    let snap = scan(&tree, &[]);
    tree.rename("docs", "papers");
    let (merged, _) = merge(&tree, snap, &[ROOT.to_string()]);
    assert_eq!(merged.records, scan(&tree, &[]).records);
    assert!(merged.records.iter().all(|r| !r.path.contains("docs")));
    assert!(merged.records.iter().any(|r| r.name == "papers"));
}

#[test]
fn merge_drops_deleted_subtree() {
    let mut tree = Tree::fixture();
    let snap = scan(&tree, &[]);
    tree.remove("cache");
    let (merged, _) = merge(&tree, snap, &[ROOT.to_string()]);
    assert_eq!(merged.records, scan(&tree, &[]).records);
    assert!(merged.records.iter().all(|r| !r.path.contains("cache")));
}

#[test]
fn merge_dirty_lookup_is_case_insensitive() {
    let mut tree = Tree::fixture();
    tree.dir("MixedCase");
    tree.file("MixedCase/x.txt", 1);
    let snap = scan(&tree, &[]);
    tree.file("MixedCase/x.txt", 5);
    let (merged, _) = merge(&tree, snap, &[under("MixedCase")]);
    let rec = merged.records.iter().find(|r| r.name == "x.txt").unwrap();
    assert_eq!(rec.size, 5);
}

#[test]
fn merge_keeps_notes_of_directories_it_did_not_visit() {
    let mut tree = Tree::fixture();
    tree.locked.push(under("cache/deep"));
    let snap = scan(&tree, &[]);
    assert_eq!(snap.skipped.len(), 1);
    tree.locked.clear();
    let (stale, _) = merge(&tree, scan_copy(&snap), &[under("docs")]);
    assert_eq!(stale.skipped.len(), 1);
    let (fresh, _) = merge(&tree, snap, &[under("cache/deep")]);
    assert!(fresh.skipped.is_empty());
    assert_eq!(fresh.records.len(), 7);
}

fn scan_copy(o: &ScanOutcome) -> ScanOutcome {
    ScanOutcome { records: o.records.clone(), skipped: o.skipped.clone() }
}

/// The listing of a directory that holds one file and one directory.
fn one_level(style: PathStyle, dir: &str, file: &str, size: u64, sub: &str) -> DirListing {
    let meta = |len| Ok(EntryMeta { len, created: 1, modified: 2, accessed: 3, attributes: 0 });
    let name = |p: &str| p.rsplit(['/', '\\']).next().unwrap().to_string();
    let entries = vec![
        DirEntry::Found {
            path: file.to_string(),
            name: name(file),
            kind: Ok(EntryKind::File),
            meta: meta(size),
        },
        DirEntry::Found {
            path: sub.to_string(),
            name: name(sub),
            kind: Ok(EntryKind::Directory),
            meta: meta(0),
        },
    ];
    enumerate_dir(style, dir, &entries, &None)
}

fn nothing(style: PathStyle, dir: &str) -> DirListing {
    enumerate_dir(style, dir, &Vec::new(), &None)
}

/// Scans a root with one file and one empty directory, and rescans it with some
/// marks after the file has grown.
fn grown_file(
    style: PathStyle,
    root: &str,
    file: &str,
    sub: &str,
    marks: &[&str],
) -> (Vec<u64>, u64) {
    let mut walk = Walk::new(root);
    walk.feed(vec![one_level(style, root, file, 5, sub)]);
    walk.feed(vec![nothing(style, sub)]);
    assert!(walk.todo.is_empty());
    let snapshot = finalize(walk.outcome);
    let dirty: Vec<String> = marks.iter().map(|m| m.to_string()).collect();
    let (mut m, _) =
        merge_scan(style, root, true, &ScanOptions::default(), snapshot, &dirty).ok().unwrap();
    while !m.is_done() {
        let read = m
            .to_read()
            .iter()
            .map(|d| if d == root { one_level(style, d, file, 9, sub) } else { nothing(style, d) })
            .collect();
        m.feed(read);
    }
    let (out, live) = m.finish();
    (out.records.iter().map(|r| r.size).collect(), live)
}

#[test]
fn rescans_do_not_depend_on_how_the_root_is_spelled() {
    let posix = [("/d/", "/d/x", "/d/y"), ("/d//", "/d//x", "/d//y"), ("/d/.", "/d/./x", "/d/./y")];
    for (root, file, sub) in posix {
        assert_eq!(grown_file(PathStyle::Posix, root, file, sub, &[]), (vec![5, 0], 0), "{root}");
        assert_eq!(grown_file(PathStyle::Posix, root, file, sub, &["/d"]), (vec![9, 0], 1));
        assert_eq!(grown_file(PathStyle::Posix, root, file, sub, &[root]), (vec![9, 0], 1));
    }
    assert_eq!(grown_file(PathStyle::Posix, "/", "/x", "/y", &[]), (vec![5, 0], 0));
    let windows = [
        ("C:\\d\\", "C:\\d\\x", "C:\\d\\y", "c:\\d"),
        ("C:\\", "C:\\x", "C:\\y", "c:\\"),
        ("\\\\srv\\share", "\\\\srv\\share\\x", "\\\\srv\\share\\y", "\\\\srv\\share"),
    ];
    for (root, file, sub, mark) in windows {
        assert_eq!(grown_file(PathStyle::Windows, root, file, sub, &[]), (vec![5, 0], 0), "{root}");
        assert_eq!(grown_file(PathStyle::Windows, root, file, sub, &[mark]), (vec![9, 0], 1));
    }
}

#[test]
fn rescans_check_their_root_and_their_patterns() {
    let none = Vec::new();
    let start = |exists: bool, excludes: &[&str]| {
        let opts = ScanOptions { excludes: excludes.iter().map(|s| s.to_string()).collect() };
        merge_scan(PathStyle::Posix, "/d", exists, &opts, ScanOutcome::default(), &none).err()
    };
    assert!(start(true, &[]).is_none());
    assert!(start(true, &["*.log"]).is_none());
    assert!(matches!(start(false, &["["]), Some(CoreError::InvalidRoot(p)) if p == "/d"));
    assert!(
        matches!(start(true, &["*.a", "["]), Some(CoreError::InvalidPattern { pattern, .. }) if pattern == "[")
    );
}
