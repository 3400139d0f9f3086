use clean_core::codec::{bits_of_i64, get_le, i64_from_bits, put_le};
use clean_core::digest::{hex, ContentHasher};
use clean_core::env::{variables_in, Env};
use clean_core::globs::{compile, is_match, join_with_commas};
use clean_core::order::{sort_by_keys, SortKey};
use clean_core::paths::{
    as_parent_of, extension_of, file_name_of, is_same, is_under, parent_of, relative_to, PathStyle,
};
use clean_core::text::{
    decimal_of, eq_ignore_ascii_case, parse_u32, signed_decimal_of, trim,
};
use clean_core::utf16::{encode_utf16, from_utf16_lossy, units_of};

#[test]
fn numbers_become_text_and_back() {
    assert_eq!(decimal_of(0), "0");
    assert_eq!(decimal_of(u64::MAX), "18446744073709551615");
    assert_eq!(signed_decimal_of(i64::MIN), "-9223372036854775808");
    assert_eq!(parse_u32("4294967295"), Some(u32::MAX));
    assert_eq!(parse_u32("4294967296"), None);
    assert_eq!(parse_u32("+7"), Some(7));
    assert_eq!(parse_u32(""), None);
    assert_eq!(trim("\u{3000} x \t"), "x");
    assert!(eq_ignore_ascii_case("CMD.exe", "cmd.EXE"));
    assert!(!eq_ignore_ascii_case("Ä", "ä"));
}

#[test]
fn bytes_are_little_endian() {
    let mut b = Vec::new();
    put_le(&mut b, 0x0102_0304, 4);
    assert_eq!(b, vec![4, 3, 2, 1]);
    assert_eq!(get_le(&b, 0, 4), 0x0102_0304);
    assert_eq!(bits_of_i64(-1), u64::MAX);
    assert_eq!(i64_from_bits(u64::MAX - 1), -2);
}

#[test]
fn content_hash_is_blake3() {
    let mut h = ContentHasher::new();
    h.update(b"ab");
    h.update(b"c");
    assert_eq!(hex(&h.finish()), blake3::hash(b"abc").to_hex().as_str());
}

#[test]
fn surrogates_pair_up_or_are_replaced() {
    assert_eq!(encode_utf16("a😀"), "a😀".encode_utf16().collect::<Vec<_>>());
    let u = [0x61u16, 0xD83D, 0xDE00, 0xD83D];
    assert_eq!(from_utf16_lossy(&u, 0, 4), "a😀\u{FFFD}");
    assert_eq!(units_of(&[0x61, 0, 0x62]), vec![0x61u16]);
}

#[test]
fn posix_paths_come_apart() {
    let p = PathStyle::Posix;
    assert_eq!(parent_of(p, "/a/b/").as_deref(), Some("/a"));
    assert_eq!(parent_of(p, "/"), None);
    assert_eq!(file_name_of(p, "/a/b.tar.gz").as_deref(), Some("b.tar.gz"));
    assert_eq!(extension_of(p, "/a/b.tar.gz").as_deref(), Some("gz"));
    assert_eq!(extension_of(p, "/a/.bashrc"), None);
    assert_eq!(file_name_of(p, "/a/.."), None);
    assert!(is_under(p, "/a/b/c", "/a/b"));
    assert!(is_under(p, "/a//b/./c", "/a/b"));
    assert!(!is_under(p, "/a/bc", "/a/b"));
    assert!(is_same(p, "/a/b", "/a//b/."));
    assert_eq!(relative_to(p, "/a/b/c", "/a").as_deref(), Some("b/c"));
    assert_eq!(relative_to(p, "/x", "/a"), None);
}

#[test]
fn windows_paths_come_apart() {
    let w = PathStyle::Windows;
    assert_eq!(parent_of(w, "C:\\a\\b").as_deref(), Some("C:\\a"));
    assert_eq!(parent_of(w, "C:\\"), None);
    assert_eq!(file_name_of(w, "C:/a/b.TXT").as_deref(), Some("b.TXT"));
    assert!(is_under(w, "c:\\a/b", "C:\\a"));
    assert!(!is_under(w, "D:\\a\\b", "C:\\a"));
    assert!(is_under(w, "\\\\srv\\share\\d\\f", "\\\\srv\\share\\d"));
}

#[test]
fn sorting_is_stable() {
    let key = |n: u64, s: &str| SortKey { rank: n, name: s.chars().collect() };
    let sorted = sort_by_keys(
        vec!["x1", "y", "x2", "w"],
        &vec![key(2, "b"), key(2, "a"), key(2, "b"), key(1, "z")],
    );
    assert_eq!(sorted, vec!["w", "y", "x1", "x2"]);
}

#[test]
fn globs_match_as_globset_does() {
    let set = match compile(&vec!["*.log".to_string(), "tmp/**".to_string()], false) {
        Ok(s) => s,
        Err(_) => panic!("both patterns are valid"),
    };
    assert!(is_match(PathStyle::Posix, &set, "/a/B.LOG"));
    assert!(is_match(PathStyle::Windows, &set, "tmp\\x\\y"));
    assert!(!is_match(PathStyle::Posix, &set, "/a/b.txt"));
    assert_eq!(join_with_commas(&vec!["a".to_string(), "b".to_string()]), "a, b");
}

#[test]
fn variables_are_asked_for_as_they_are_spelled() {
    let env = Env { vars: vec![("Path".to_string(), "x".to_string())] };
    assert_eq!(env.get("Path").map(|s| s.as_str()), Some("x"));
    assert!(env.get("PATH").is_none());
    assert_eq!(variables_in("a%B%c%\u{c9}%%"), ["B", "c", "\u{c9}", ""]);
    assert!(variables_in("100% sure").is_empty());
    assert!(variables_in("").is_empty());
}

#[test]
fn a_directory_is_the_parent_of_its_entries() {
    let cases = [
        (PathStyle::Posix, "/d", "/d/x"),
        (PathStyle::Posix, "/d/", "/d/x"),
        (PathStyle::Posix, "/d//", "/d//x"),
        (PathStyle::Posix, "/", "/x"),
        (PathStyle::Posix, ".", "./x"),
        (PathStyle::Posix, "", "x"),
        (PathStyle::Windows, "C:\\d\\", "C:\\d\\x"),
        (PathStyle::Windows, "C:\\", "C:\\x"),
        (PathStyle::Windows, "C:", "C:x"),
        (PathStyle::Windows, "\\\\srv\\share", "\\\\srv\\share\\x"),
        (PathStyle::Windows, "\\\\?\\C:\\d\\", "\\\\?\\C:\\d\\x"),
    ];
    for (style, dir, entry) in cases {
        assert_eq!(parent_of(style, entry), Some(as_parent_of(style, dir)), "{dir}");
    }
}
