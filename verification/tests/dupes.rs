use clean_core::dupes::{
    choose_keep, find_duplicates, keep_score, needs_full, needs_partial, partial_hash, wants_tail,
    DupeGroup, DupeOptions, PARTIAL_CHUNK,
};
use clean_core::paths::PathStyle;
use clean_core::types::FileRecord;

fn opts(min_size: u64, keep: &[&str]) -> DupeOptions {
    DupeOptions { min_size, keep_priority: keep.iter().map(|s| s.to_string()).collect() }
}

struct Disk(Vec<(FileRecord, Vec<u8>)>);

fn rec(path: &str, size: u64) -> FileRecord {
    FileRecord {
        id: 0,
        path: path.to_string(),
        name: path.rsplit('/').next().unwrap().to_string(),
        ext: None,
        size,
        created: 0,
        modified: 0,
        accessed: 0,
        is_dir: false,
        attributes: 0,
    }
}

impl Disk {
    fn of(files: &[(&str, Vec<u8>)]) -> Disk {
        Disk(files.iter().map(|(p, c)| (rec(p, c.len() as u64), c.clone())).collect())
    }

    fn find(&self, o: &DupeOptions) -> Vec<DupeGroup> {
        let recs: Vec<FileRecord> = self.0.iter().map(|(r, _)| r.clone()).collect();
        let mut partial: Vec<Option<Vec<u8>>> = recs.iter().map(|_| None).collect();
        for i in needs_partial(&recs, o) {
            let c = &self.0[i].1;
            let head = &c[..c.len().min(PARTIAL_CHUNK)];
            let tail = if wants_tail(c.len() as u64) { &c[c.len() - PARTIAL_CHUNK..] } else { &[] };
            partial[i] = Some(partial_hash(c.len() as u64, head, tail));
        }
        let mut full: Vec<Option<Vec<u8>>> = recs.iter().map(|_| None).collect();
        for i in needs_full(&recs, o, &partial) {
            full[i] = Some(blake3::hash(&self.0[i].1).as_bytes().to_vec());
        }
        find_duplicates(PathStyle::Posix, &recs, o, &partial, &full)
    }
}

#[test]
fn finds_content_identical_files_across_dirs() {
    let content = vec![7u8; 10_000];
    let disk = Disk::of(&[
        ("/t/a/x.bin", content.clone()),
        ("/t/b/copy.bin", content),
        ("/t/b/different.bin", vec![9u8; 10_000]),
    ]);
    let groups = disk.find(&opts(1, &[]));
    assert_eq!(groups.len(), 1);
    assert_eq!(groups[0].members.len(), 2);
    assert_eq!(groups[0].size, 10_000);
    assert_eq!(groups[0].wasted_bytes(), 10_000);
    assert_eq!(groups[0].hash, blake3::hash(&[7u8; 10_000]).to_hex().as_str());
}

#[test]
fn same_size_same_edges_different_middle_not_grouped() {
    let mut a = vec![0u8; 20_000];
    let mut b = vec![0u8; 20_000];
    a[10_000] = 1;
    b[10_000] = 2;
    assert!(Disk::of(&[("/t/a.bin", a), ("/t/b.bin", b)]).find(&opts(1, &[])).is_empty());
}

#[test]
fn min_size_filters_small_files() {
    let disk = Disk::of(&[("/t/s1.txt", b"same".to_vec()), ("/t/s2.txt", b"same".to_vec())]);
    assert!(disk.find(&opts(1024, &[])).is_empty());
}

#[test]
fn keep_priority_selects_survivor() {
    let content = vec![3u8; 5_000];
    let disk = Disk::of(&[
        ("/t/Downloads/dupe.bin", content.clone()),
        ("/t/Documents/keep.bin", content),
    ]);
    let groups = disk.find(&opts(1, &["/t/Documents"]));
    assert_eq!(groups.len(), 1);
    let keeper = &groups[0].members[groups[0].suggested_keep];
    assert!(keeper.path.contains("Documents"));
}

#[test]
fn one_copy_always_survives() {
    let content = vec![5u8; 4_000];
    let disk = Disk::of(&[
        ("/t/a.bin", content.clone()),
        ("/t/b.bin", content.clone()),
        ("/t/c.bin", content),
    ]);
    let groups = disk.find(&opts(1, &[]));
    assert_eq!(groups.len(), 1);
    let g = &groups[0];
    assert_eq!(g.members.len(), 3);
    assert_eq!(g.deletable().len(), 2);
    assert!(g.suggested_keep < g.members.len());
    assert_eq!(g.wasted_bytes(), 8_000);
}

#[test]
fn unreadable_files_fall_out_of_the_funnel() {
    let recs = vec![rec("/a", 9), rec("/b", 9), rec("/c", 9), rec("/d", 8)];
    let o = opts(1, &[]);
    assert_eq!(needs_partial(&recs, &o), vec![0, 1, 2]);
    let partial = vec![Some(vec![1]), None, Some(vec![1]), None];
    assert_eq!(needs_full(&recs, &o, &partial), vec![0, 2]);
    let full = vec![Some(vec![2]), None, None, None];
    assert!(find_duplicates(PathStyle::Posix, &recs, &o, &partial, &full).is_empty());
}

#[test]
fn big_files_are_read_at_both_ends() {
    assert!(!wants_tail(4096));
    assert!(!wants_tail(8192));
    assert!(wants_tail(8193));
    let head = [1u8; 4096];
    let tail = [2u8; 4096];
    let mut h = blake3::Hasher::new();
    h.update(&head);
    h.update(&tail);
    assert_eq!(partial_hash(10_000, &head, &tail), h.finalize().as_bytes().to_vec());
    assert_eq!(partial_hash(4096, &head, &[]), blake3::hash(&head).as_bytes().to_vec());
}

#[test]
fn groups_come_by_wasted_space() {
    let disk = Disk::of(&[
        ("/t/a1", vec![1u8; 100]),
        ("/t/a2", vec![1u8; 100]),
        ("/t/b1", vec![2u8; 300]),
        ("/t/b2", vec![2u8; 300]),
    ]);
    let groups = disk.find(&opts(1, &[]));
    assert_eq!(groups.iter().map(|g| g.size).collect::<Vec<_>>(), vec![300, 100]);
}

#[test]
fn priority_beats_age_and_age_beats_name() {
    let mut old = rec("/z/old", 1);
    old.modified = 5;
    let mut new = rec("/a/new", 1);
    new.modified = 9;
    let both = vec![new, old];
    assert_eq!(choose_keep(PathStyle::Posix, &both, &vec![]), 1);
    assert_eq!(choose_keep(PathStyle::Posix, &both, &vec!["/a".to_string()]), 0);
    assert_eq!(
        keep_score(PathStyle::Posix, &both[1], &vec!["/q".to_string()]),
        (usize::MAX, 5, "/z/old".to_string())
    );
    assert_eq!(DupeOptions::default().min_size, 1_048_576);
}
