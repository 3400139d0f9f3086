use clean_core::types::Platform;
use clean_core::usn::{
    changed_dirs_since, checkpoint_for, drive_letter, final_path, journal_interval, parse_journal,
    DeltaVerdict, FrnCollector, Journal, ReadStep, UsnCheckpoint, VolumeFacts,
};

fn facts() -> VolumeFacts {
    VolumeFacts {
        serial: Some(0xCAFE),
        opened: true,
        journal: Some(Journal { id: 0x1D, first_usn: 100, next_usn: 9_000 }),
    }
}

fn live_checkpoint() -> UsnCheckpoint {
    checkpoint_for(Platform::Windows, "C:\\", facts()).unwrap()
}

fn verdict(root: &str, cp: &UsnCheckpoint) -> DeltaVerdict {
    changed_dirs_since(Platform::Windows, root, cp, 1000, facts(), &Some(Vec::new()))
}

fn assert_unavailable(v: DeltaVerdict, why: &str) {
    match v {
        DeltaVerdict::Unavailable(r) => assert_eq!(r, why),
        DeltaVerdict::Dirty(_) => panic!("must not produce a delta: {why}"),
    }
}

#[test]
fn checkpoint_has_plausible_values() {
    let cp = live_checkpoint();
    assert!(cp.journal_id != 0);
    assert!(cp.next_usn > 0);
    assert!(cp.volume_serial != 0);
}

#[test]
fn mismatched_journal_id_is_unavailable() {
    let mut cp = live_checkpoint();
    cp.journal_id ^= 0xDEAD_BEEF;
    assert_unavailable(verdict("C:\\", &cp), "journal recreated");
}

#[test]
fn wrapped_checkpoint_is_unavailable() {
    let mut cp = live_checkpoint();
    cp.next_usn = -5;
    assert_unavailable(verdict("C:\\", &cp), "journal wrapped");
}

#[test]
fn future_checkpoint_is_unavailable() {
    let mut cp = live_checkpoint();
    cp.next_usn = i64::MAX / 2;
    assert_unavailable(verdict("C:\\", &cp), "checkpoint ahead of journal");
}

#[test]
fn changed_volume_serial_is_unavailable() {
    let mut cp = live_checkpoint();
    cp.volume_serial = cp.volume_serial.wrapping_add(1);
    assert_unavailable(verdict("C:\\", &cp), "volume changed");
}

#[test]
fn unc_root_is_unavailable() {
    let cp = UsnCheckpoint { journal_id: 1, next_usn: 1, volume_serial: 1 };
    assert_unavailable(verdict("\\\\server\\share", &cp), "root has no drive letter");
}

#[test]
fn dirty_directories_are_those_under_the_root() {
    let parents = Some(vec![
        Some("C:\\Data\\Sub".to_string()),
        None,
        Some("C:\\DataX".to_string()),
        Some("c:\\data".to_string()),
    ]);
    match changed_dirs_since(
        Platform::Windows,
        "C:\\Data\\",
        &live_checkpoint(),
        10,
        facts(),
        &parents,
    ) {
        DeltaVerdict::Dirty(mut d) => {
            d.sort();
            assert_eq!(d, vec!["c:\\data".to_string(), "c:\\data\\sub".to_string()]);
        }
        DeltaVerdict::Unavailable(r) => panic!("{r}"),
    }
    assert_unavailable(
        changed_dirs_since(
            Platform::Windows,
            "C:\\Data",
            &live_checkpoint(),
            1,
            facts(),
            &parents,
        ),
        "too many changes under root",
    );
    assert_unavailable(
        changed_dirs_since(Platform::Windows, "C:\\", &live_checkpoint(), 1, facts(), &None),
        "too many changes on volume",
    );
}

#[test]
fn there_is_no_checkpoint_without_a_journal() {
    assert!(checkpoint_for(Platform::MacOs, "C:\\", facts()).is_none());
    let none = VolumeFacts { journal: None, ..facts() };
    assert!(checkpoint_for(Platform::Windows, "C:\\", none).is_none());
    assert_eq!(drive_letter("d:\\x"), Some('D'));
    assert_eq!(drive_letter("/home"), None);
    assert_eq!(
        journal_interval(Platform::Windows, "C:\\", &live_checkpoint(), facts()),
        Ok((9_000, 9_000))
    );
}

#[test]
fn journal_answer_is_little_endian() {
    let mut b = Vec::new();
    b.extend(0x1Du64.to_le_bytes());
    b.extend((-3i64).to_le_bytes());
    b.extend(77i64.to_le_bytes());
    assert_eq!(parse_journal(&b), Some(Journal { id: 0x1D, first_usn: -3, next_usn: 77 }));
    assert_eq!(parse_journal(&b[..20]), None);
}

fn record(parent: u64) -> Vec<u8> {
    let mut r = Vec::new();
    r.extend(64u32.to_le_bytes());
    r.extend(2u16.to_le_bytes());
    r.extend(0u16.to_le_bytes());
    r.extend(1u64.to_le_bytes());
    r.extend(parent.to_le_bytes());
    r.resize(64, 0);
    r
}

fn answer(next: i64, parents: &[u64]) -> Vec<u8> {
    let mut b = next.to_le_bytes().to_vec();
    for p in parents {
        b.extend(record(*p));
    }
    b
}

#[test]
fn parents_are_collected_once_until_the_target() {
    let mut c = FrnCollector::new(10, 50);
    assert_eq!(c.first(), ReadStep::More { usn: 10 });
    assert_eq!(c.feed(Some(&answer(30, &[5, 6, 5]))), ReadStep::More { usn: 30 });
    assert_eq!(c.feed(Some(&answer(60, &[6, 7]))), ReadStep::Done);
    assert_eq!(c.into_parents(), vec![5, 6, 7]);
    assert_eq!(FrnCollector::new(50, 50).first(), ReadStep::Done);
    assert_eq!(FrnCollector::new(10, 50).feed(None), ReadStep::Failed);
    assert_eq!(FrnCollector::new(10, 50).feed(Some(&[1, 2])), ReadStep::Done);
    assert_eq!(FrnCollector::new(10, 50).feed(Some(&answer(10, &[]))), ReadStep::Done);
}

#[test]
fn resolved_paths_lose_the_verbatim_prefix() {
    let wide: Vec<u16> = "\\\\?\\C:\\Data\0".encode_utf16().collect();
    assert_eq!(final_path(&wide, wide.len() - 1).as_deref(), Some("C:\\Data"));
    assert_eq!(final_path(&wide, 0), None);
    assert_eq!(final_path(&wide, wide.len()), None);
}
