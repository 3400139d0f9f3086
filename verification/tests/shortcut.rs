use clean_core::shortcut::local_target_path;

const HEADER_SIZE: usize = 0x4C;
const FLAG_HAS_LINK_TARGET_ID_LIST: u32 = 0x1;
const FLAG_HAS_LINK_INFO: u32 = 0x2;
const LINKINFO_VOLUMEID_AND_LOCAL_BASE_PATH: u32 = 0x1;

fn lnk_with_ansi_target(target: &str) -> Vec<u8> {
    let mut b = vec![0u8; HEADER_SIZE];
    b[0..4].copy_from_slice(&(HEADER_SIZE as u32).to_le_bytes());
    b[0x14..0x18].copy_from_slice(&FLAG_HAS_LINK_INFO.to_le_bytes());
    b.extend_from_slice(&link_info(target));
    b
}

fn link_info(target: &str) -> Vec<u8> {
    let mut path_bytes = target.as_bytes().to_vec();
    path_bytes.push(0);
    let mut li = Vec::new();
    let li_size = 0x1C + path_bytes.len() as u32;
    li.extend_from_slice(&li_size.to_le_bytes());
    li.extend_from_slice(&0x1Cu32.to_le_bytes());
    li.extend_from_slice(&LINKINFO_VOLUMEID_AND_LOCAL_BASE_PATH.to_le_bytes());
    li.extend_from_slice(&0u32.to_le_bytes());
    li.extend_from_slice(&0x1Cu32.to_le_bytes());
    li.extend_from_slice(&0u32.to_le_bytes());
    li.extend_from_slice(&0u32.to_le_bytes());
    li.extend_from_slice(&path_bytes);
    li
}

#[test]
fn parses_ansi_local_base_path() {
    let lnk = lnk_with_ansi_target(r"C:\Program Files\App\app.exe");
    assert_eq!(local_target_path(&lnk).as_deref(), Some(r"C:\Program Files\App\app.exe"));
}

#[test]
fn rejects_non_lnk_bytes() {
    assert!(local_target_path(b"not a shortcut").is_none());
    assert!(local_target_path(&[]).is_none());
}

#[test]
fn none_when_no_link_info_flag() {
    let mut b = vec![0u8; HEADER_SIZE];
    b[0..4].copy_from_slice(&(HEADER_SIZE as u32).to_le_bytes());
    assert!(local_target_path(&b).is_none());
}

#[test]
fn truncated_link_info_is_none_not_panic() {
    let mut lnk = lnk_with_ansi_target(r"C:\x\y.exe");
    lnk.truncate(HEADER_SIZE + 8);
    assert!(local_target_path(&lnk).is_none());
}

#[test]
fn id_list_before_link_info_is_skipped() {
    let mut b = vec![0u8; HEADER_SIZE];
    b[0..4].copy_from_slice(&(HEADER_SIZE as u32).to_le_bytes());
    let flags = FLAG_HAS_LINK_INFO | FLAG_HAS_LINK_TARGET_ID_LIST;
    b[0x14..0x18].copy_from_slice(&flags.to_le_bytes());
    b.extend_from_slice(&5u16.to_le_bytes());
    b.extend_from_slice(&[9, 9, 9, 9, 9]);
    b.extend_from_slice(&link_info(r"D:\t.exe"));
    assert_eq!(local_target_path(&b).as_deref(), Some(r"D:\t.exe"));
}

#[test]
fn invalid_utf8_in_a_path_is_replaced() {
    let mut lnk = lnk_with_ansi_target("C:\\x.exe");
    let at = lnk.len() - 2;
    lnk[at] = 0xFF;
    assert_eq!(local_target_path(&lnk).as_deref(), Some("C:\\x.ex\u{FFFD}"));
}

#[test]
fn a_path_without_its_zero_is_truncated() {
    let mut lnk = lnk_with_ansi_target(r"C:\x\y.exe");
    for _ in 0..4 {
        lnk.pop();
        assert!(local_target_path(&lnk).is_none());
    }
}

/// A shortcut with a Unicode base path and a suffix, both behind the header.
fn lnk_with_suffix(target: &str, suffix: &str) -> Vec<u8> {
    let mut b = vec![0u8; HEADER_SIZE];
    b[0..4].copy_from_slice(&(HEADER_SIZE as u32).to_le_bytes());
    b[0x14..0x18].copy_from_slice(&FLAG_HAS_LINK_INFO.to_le_bytes());
    let path: Vec<u8> =
        target.encode_utf16().chain([0]).flat_map(|u| u.to_le_bytes()).collect();
    let suffix_off = 0x24 + path.len() as u32;
    for n in [0, 0x24, LINKINFO_VOLUMEID_AND_LOCAL_BASE_PATH, 0, 0, 0, suffix_off, 0x24, 0] {
        b.extend_from_slice(&n.to_le_bytes());
    }
    b.extend_from_slice(&path);
    b.extend_from_slice(suffix.as_bytes());
    b.push(0);
    b
}

#[test]
fn a_suffix_follows_the_base_path_or_nothing_is_resolved() {
    let mut lnk = lnk_with_suffix("C:\\d\\", "t.exe");
    assert_eq!(local_target_path(&lnk).as_deref(), Some("C:\\d\\t.exe"));
    lnk.pop();
    assert!(local_target_path(&lnk).is_none(), "the suffix has no zero");
    lnk.truncate(lnk.len() - 5);
    assert!(local_target_path(&lnk).is_none(), "the suffix is gone");
    lnk.truncate(lnk.len() - 2);
    assert!(local_target_path(&lnk).is_none(), "the base path has no zero");
}
