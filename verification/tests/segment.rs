use minidex::entry::IndexEntry;
use minidex::matcher::RegexMatcher;
use minidex::pattern::search_pattern;
use minidex::segmented_index::Segment;
use minidex::{Kind, Opstamp};

fn entry(seq: u64, modified: u64) -> IndexEntry {
    IndexEntry {
        opstamp: Opstamp::insertion(seq),
        kind: Kind::File,
        content_type: 0,
        last_modified: modified,
        last_accessed: modified,
    }
}

fn keys_of(hits: Vec<(Vec<u8>, u64)>) -> Vec<String> {
    let mut keys = Vec::new();
    for (key, _) in hits {
        keys.push(String::from_utf8(key).unwrap());
    }
    keys
}

#[test]
fn pattern_of_two_words() {
    assert_eq!(search_pattern("Le Ru"), "(?i)(?s).*Le.*Ru.*");
    assert_eq!(search_pattern("  a.b\t"), "(?i)(?s).*a\\.b.*");
    assert_eq!(search_pattern(""), "(?i)(?s).*");
    assert_eq!(search_pattern(" \u{3000} "), "(?i)(?s).*");
}

#[test]
fn whole_key_match_is_anchored_at_the_start() {
    let matcher = RegexMatcher::compile(&search_pattern("jpg")).unwrap();
    assert!(matcher.is_match("my-photo.jpg"));
    assert!(!matcher.is_match("jpeg-viewer.md"));
    assert!(matcher.is_match("JPG"));
    assert!(!matcher.is_match(""));
}

#[test]
fn segment_walk_reports_keys_that_match_to_their_last_byte() {
    let items = vec![
        (b"a".to_vec(), entry(1, 10)),
        (b"jpeg-viewer.md".to_vec(), entry(2, 20)),
        (b"my-photo.jpg".to_vec(), entry(3, 30)),
    ];
    let segment = Segment::build(&items).unwrap();
    let matcher = RegexMatcher::compile(&search_pattern("jpg")).unwrap();
    assert_eq!(keys_of(segment.search(&matcher)), vec!["my-photo.jpg".to_string()]);
    let matcher = RegexMatcher::compile(&search_pattern("a")).unwrap();
    assert_eq!(keys_of(segment.search(&matcher)), vec!["a".to_string()]);
    let matcher = RegexMatcher::compile(&search_pattern("")).unwrap();
    assert_eq!(segment.search(&matcher).len(), 3);
    assert_eq!(segment.pairs().len(), 3);
    assert_eq!(segment.pairs()[2], (b"my-photo.jpg".to_vec(), 64));
    assert_eq!(segment.get_entry(64), Some(entry(3, 30)));
    assert_eq!(segment.get_entry(65), None);
}

#[test]
fn segment_refuses_keys_out_of_order() {
    let items = vec![(b"b".to_vec(), entry(1, 10)), (b"a".to_vec(), entry(2, 20))];
    assert!(Segment::build(&items).is_err());
    let items = vec![(b"a".to_vec(), entry(1, 10)), (b"a".to_vec(), entry(2, 20))];
    assert!(Segment::build(&items).is_err());
}

#[test]
fn empty_key_is_found_by_the_empty_query_in_overlay_and_segment() {
    let items = vec![(b"".to_vec(), entry(1, 10)), (b"a".to_vec(), entry(2, 20))];
    let segment = Segment::build(&items).unwrap();
    let matcher = RegexMatcher::compile(&search_pattern("")).unwrap();
    assert!(matcher.is_match(""));
    assert_eq!(keys_of(segment.search(&matcher)), vec!["".to_string(), "a".to_string()]);
    let matcher = RegexMatcher::compile(&search_pattern("a")).unwrap();
    assert!(!matcher.is_match(""));
    assert_eq!(keys_of(segment.search(&matcher)), vec!["a".to_string()]);
}

#[test]
fn segment_walk_and_whole_key_match_agree() {
    let keys = ["", "a", "ab", "Ab.c", "b a", "jpeg", "x/y/z.JPG", "\u{e9}t\u{e9}", "k"];
    let mut sorted: Vec<&str> = keys.to_vec();
    sorted.sort();
    let items: Vec<(Vec<u8>, IndexEntry)> =
        sorted.iter().map(|key| (key.as_bytes().to_vec(), entry(1, 1))).collect();
    let segment = Segment::build(&items).unwrap();
    for query in ["", "a", "A", "ab", "a b", "b a", "jpg", ".", "\u{c9}", "K", "zz"] {
        let matcher = RegexMatcher::compile(&search_pattern(query)).unwrap();
        let walked = keys_of(segment.search(&matcher));
        let whole: Vec<String> =
            sorted.iter().filter(|key| matcher.is_match(key)).map(|key| key.to_string()).collect();
        assert_eq!(walked, whole);
    }
}
