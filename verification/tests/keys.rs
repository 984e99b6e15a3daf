use minidex::fuzzy::is_fuzzy_match;
use minidex::keys::{compare_bytes, compare_keys, KeyOrder};
use minidex::last_op::{format_last_op, parse_last_op};
use minidex::overlay::Overlay;
use minidex::pattern::{char_is_whitespace, search_pattern};
use minidex::entry::IndexEntry;

#[test]
fn bytes_are_ordered_byte_by_byte() {
    assert_eq!(compare_bytes(b"", b""), KeyOrder::Same);
    assert_eq!(compare_bytes(b"", b"a"), KeyOrder::Before);
    assert_eq!(compare_bytes(b"a", b""), KeyOrder::After);
    assert_eq!(compare_bytes(b"ab", b"abc"), KeyOrder::Before);
    assert_eq!(compare_bytes(b"abd", b"abc"), KeyOrder::After);
    assert_eq!(compare_bytes(b"abc", b"abc"), KeyOrder::Same);
    assert_eq!(compare_bytes(&[0x7f], &[0x80]), KeyOrder::Before);
    assert_eq!(compare_bytes(&[0xff], &[0x00, 0x01]), KeyOrder::After);
}

#[test]
fn keys_are_ordered_as_their_utf8_bytes() {
    assert_eq!(compare_keys("a.b", "a/b"), KeyOrder::Before);
    assert_eq!(compare_keys("Z", "a"), KeyOrder::Before);
    assert_eq!(compare_keys("z", "\u{e9}"), KeyOrder::Before);
    assert_eq!(compare_keys("\u{e9}", "\u{e9}"), KeyOrder::Same);
    assert_eq!(compare_keys("\u{10000}", "\u{ffff}"), KeyOrder::After);
}

#[test]
fn marker_is_decimal_text() {
    assert_eq!(format_last_op(0), "0");
    assert_eq!(format_last_op(10), "10");
    assert_eq!(format_last_op(1234567890), "1234567890");
    assert_eq!(format_last_op(u64::MAX), "18446744073709551615");
}

#[test]
fn marker_is_read_back() {
    assert_eq!(parse_last_op("0"), Some(0));
    assert_eq!(parse_last_op("123"), Some(123));
    assert_eq!(parse_last_op("+5"), Some(5));
    assert_eq!(parse_last_op("007"), Some(7));
    assert_eq!(parse_last_op("18446744073709551615"), Some(u64::MAX));
    assert_eq!(parse_last_op(&format_last_op(987654321)), Some(987654321));
}

#[test]
fn malformed_marker_is_unknown() {
    assert_eq!(parse_last_op(""), None);
    assert_eq!(parse_last_op("+"), None);
    assert_eq!(parse_last_op("-1"), None);
    assert_eq!(parse_last_op("12a"), None);
    assert_eq!(parse_last_op(" 12"), None);
    assert_eq!(parse_last_op("12\n"), None);
    assert_eq!(parse_last_op("++1"), None);
    assert_eq!(parse_last_op("18446744073709551616"), None);
    assert_eq!(parse_last_op("99999999999999999999999"), None);
    assert_eq!(parse_last_op("\u{661}"), None);
}

#[test]
fn marker_reads_as_std_reads_it() {
    let texts =
        ["0", "+0", "42", "", "+", "-", "4 2", "0x10", "18446744073709551615", "18446744073709551616"];
    for text in texts {
        assert_eq!(parse_last_op(text), text.parse::<u64>().ok());
    }
}

#[test]
fn whitespace_is_the_unicode_property() {
    for code in 0u32..0x3100 {
        if let Some(c) = char::from_u32(code) {
            assert_eq!(char_is_whitespace(c), c.is_whitespace());
        }
    }
    assert!(!char_is_whitespace('\u{200b}'));
    assert!(!char_is_whitespace('\u{feff}'));
}

#[test]
fn pattern_escapes_each_meta_character() {
    assert_eq!(
        search_pattern("\\.+*?()|[]{}^$#&-~"),
        "(?i)(?s).*\\\\\\.\\+\\*\\?\\(\\)\\|\\[\\]\\{\\}\\^\\$\\#\\&\\-\\~.*"
    );
    assert_eq!(search_pattern("a%b/c!\"e"), "(?i)(?s).*a%b/c!\"e.*");
    assert_eq!(search_pattern("x\u{a0}y\u{2003}z"), "(?i)(?s).*x.*y.*z.*");
    assert_eq!(search_pattern("\u{e9}t\u{e9}"), "(?i)(?s).*\u{e9}t\u{e9}.*");
}

#[test]
fn fuzzy_match_is_the_subsequence_test() {
    assert!(is_fuzzy_match("", ""));
    assert!(is_fuzzy_match("", "abc"));
    assert!(!is_fuzzy_match("a", ""));
    assert!(is_fuzzy_match("jpg", "jpeg-viewer.md"));
    assert!(is_fuzzy_match("jpg", "my-photo.jpg"));
    assert!(!is_fuzzy_match("gpj", "my-photo.jpg"));
    assert!(!is_fuzzy_match("JPG", "my-photo.jpg"));
    assert!(is_fuzzy_match("aa", "aba"));
    assert!(!is_fuzzy_match("aa", "ab"));
}

fn entry(seq: u64) -> IndexEntry {
    IndexEntry::tombstone(seq)
}

fn keys(overlay: &Overlay) -> Vec<String> {
    overlay.entries().iter().map(|(key, _)| key.clone()).collect()
}

#[test]
fn overlay_keeps_its_keys_in_order() {
    let mut overlay = Overlay::new();
    assert!(overlay.is_empty());
    for key in ["m", "b", "z", "a", "mm", ""] {
        overlay.insert(key.to_string(), entry(1));
    }
    assert_eq!(keys(&overlay), vec!["", "a", "b", "m", "mm", "z"]);
    assert_eq!(overlay.len(), 6);
}

#[test]
fn overlay_overwrites_in_place() {
    let mut overlay = Overlay::new();
    overlay.insert("a".to_string(), entry(1));
    overlay.insert("b".to_string(), entry(2));
    overlay.insert("a".to_string(), entry(3));
    assert_eq!(overlay.len(), 2);
    assert_eq!(overlay.entries()[0], ("a".to_string(), entry(3)));
    assert_eq!(overlay.entries()[1], ("b".to_string(), entry(2)));
}

#[test]
fn overlay_drains_in_order_and_is_empty_after() {
    let mut overlay = Overlay::new();
    overlay.insert("b".to_string(), entry(1));
    overlay.insert("a".to_string(), entry(2));
    let drained = overlay.drain();
    assert_eq!(drained, vec![("a".to_string(), entry(2)), ("b".to_string(), entry(1))]);
    assert!(overlay.is_empty());
    overlay.insert("c".to_string(), entry(3));
    overlay.clear();
    assert!(overlay.is_empty());
}
