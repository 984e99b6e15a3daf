use std::cmp::Ordering;
use std::sync::Arc;

use minidex::entry::IndexEntry;
use minidex::matcher::RegexMatcher;
use minidex::search::{sort_results, Candidates};
use minidex::segmented_index::compactor::{
    merge_entries, merge_segments, CompactorConfig, CompactorConfigBuilder,
};
use minidex::segmented_index::{Segment, SegmentedIndex};
use minidex::{Index, Kind, Opstamp, SearchResult};

fn put(seq: u64, modified: u64) -> IndexEntry {
    IndexEntry {
        opstamp: Opstamp::insertion(seq),
        kind: Kind::File,
        content_type: 0,
        last_modified: modified,
        last_accessed: modified,
    }
}

fn segment(items: Vec<(&str, IndexEntry)>) -> Arc<Segment> {
    let items: Vec<(Vec<u8>, IndexEntry)> =
        items.into_iter().map(|(key, entry)| (key.as_bytes().to_vec(), entry)).collect();
    Arc::new(Segment::build(&items).unwrap())
}

#[test]
fn merge_keeps_the_latest_entry_of_each_key() {
    let snapshot = vec![
        segment(vec![("a", put(1, 10)), ("b", put(2, 20)), ("d", put(3, 30))]),
        segment(vec![("a", put(5, 50)), ("c", put(6, 60))]),
        segment(vec![
            ("a", put(4, 40)),
            ("b", IndexEntry::tombstone(7)),
            ("e", IndexEntry::tombstone(8)),
        ]),
    ];
    let items = merge_entries(&snapshot);
    assert_eq!(
        items,
        vec![
            (b"a".to_vec(), put(5, 50)),
            (b"c".to_vec(), put(6, 60)),
            (b"d".to_vec(), put(3, 30)),
        ]
    );
    let merged = merge_segments(&snapshot);
    assert_eq!(merged.written, 3);
    assert_eq!(
        merged.segment.pairs(),
        vec![(b"a".to_vec(), 0), (b"c".to_vec(), 32), (b"d".to_vec(), 64)]
    );
    assert_eq!(merged.segment.get_entry(0), Some(put(5, 50)));
    assert_eq!(merged.segment.get_entry(32), Some(put(6, 60)));
    assert_eq!(merged.segment.get_entry(64), Some(put(3, 30)));
    assert_eq!(merged.segment.get_entry(96), None);
    assert_eq!(merged.segment.data().len(), 96);
}

#[test]
fn merge_of_equal_sequences_keeps_the_earlier_segment() {
    let snapshot =
        vec![segment(vec![("k", put(9, 2)), ("x", put(1, 0))]), segment(vec![("k", put(9, 1))])];
    assert_eq!(
        merge_entries(&snapshot),
        vec![(b"k".to_vec(), put(9, 2)), (b"x".to_vec(), put(1, 0))]
    );
}

#[test]
fn merge_of_nothing_is_empty() {
    let merged = merge_segments(&Vec::new());
    assert_eq!(merged.written, 0);
    assert!(merged.segment.pairs().is_empty());
    let merged = merge_segments(&vec![segment(vec![("gone", IndexEntry::tombstone(1))])]);
    assert_eq!(merged.written, 0);
}

#[test]
fn merge_skips_offsets_that_point_at_no_entry() {
    let pairs = vec![(b"a".to_vec(), 0), (b"b".to_vec(), 40)];
    let bad = Arc::new(Segment::load(pairs, put(9, 9).to_bytes()).unwrap());
    let snapshot = vec![segment(vec![("b", put(1, 1))]), bad];
    assert_eq!(
        merge_entries(&snapshot),
        vec![(b"a".to_vec(), put(9, 9)), (b"b".to_vec(), put(1, 1))]
    );
}

#[test]
fn merged_segment_answers_as_the_snapshot_did() {
    let (mut base, _) = SegmentedIndex::open(None);
    let first = vec![("keep.txt", put(1, 10)), ("old.txt", put(2, 20))];
    let second = vec![("old.txt", IndexEntry::tombstone(3))];
    let snapshot = vec![segment(first), segment(second)];
    base.load(merge_segments(&snapshot).segment);
    let index = Index::open(base, None, 100);
    let found = index.search("txt").unwrap();
    assert_eq!(found.len(), 1);
    assert_eq!(found[0].path, "keep.txt");
}

#[test]
fn stored_key_map_is_read_back_by_the_fst_crate() {
    let built = segment(vec![("a", put(1, 1)), ("b", put(2, 2))]);
    let map = fst::Map::new(built.map_bytes()).unwrap();
    assert_eq!(map.get("a"), Some(0));
    assert_eq!(map.get("b"), Some(32));
    assert_eq!(map.len(), 2);
}

#[test]
fn snapshot_does_not_see_later_segments() {
    let (mut base, _) = SegmentedIndex::open(None);
    base.load(Segment::build(&vec![(b"a".to_vec(), put(1, 1))]).unwrap());
    let snapshot = base.snapshot();
    base.load(Segment::build(&vec![(b"b".to_vec(), put(2, 2))]).unwrap());
    assert_eq!(snapshot.len(), 1);
    assert_eq!(base.segments().len(), 2);
    assert_eq!(snapshot[0].pairs(), vec![(b"a".to_vec(), 0)]);
    assert!(Arc::ptr_eq(&snapshot[0], &base.segments()[0]));
}

#[test]
fn segment_load_refuses_unordered_pairs() {
    assert!(Segment::load(vec![(b"b".to_vec(), 0), (b"a".to_vec(), 32)], Vec::new()).is_err());
    assert!(Segment::load(vec![(b"a".to_vec(), 0), (b"a".to_vec(), 32)], Vec::new()).is_err());
    let error = SegmentedIndex::open(None).0.write_segment(vec![
        ("b".to_string(), put(1, 1)),
        ("a".to_string(), put(2, 2)),
    ]);
    assert!(matches!(error, Err(minidex::segmented_index::SegmentedIndexError::Fst(_))));
    assert_eq!(error.err().unwrap().message(), "FST error");
}

#[test]
fn segment_error_says_what_the_key_map_said() {
    let duplicate = Segment::load(vec![(b"a".to_vec(), 0), (b"a".to_vec(), 32)], Vec::new());
    assert_eq!(duplicate.err().unwrap().message(), "FST error");
    let unordered = Segment::build(&vec![(b"b".to_vec(), put(1, 1)), (b"a".to_vec(), put(2, 2))]);
    assert_eq!(unordered.err().unwrap().message(), "FST error");
    let writer = fst::Error::from(std::io::Error::other("disk full"));
    let error = minidex::segmented_index::SegmentedIndexError::Fst(writer);
    assert_eq!(error.message(), "I/O error");
}

#[test]
fn index_error_says_what_failed() {
    let error = minidex::IndexError::Regex("unclosed group".to_string());
    assert_eq!(error.message(), "failed to compile matching regex: unclosed group");
}

#[test]
fn search_skips_keys_that_are_not_utf8_and_offsets_without_entry() {
    let data = put(1, 1).to_bytes();
    let loaded = Segment::load(
        vec![(b"good".to_vec(), 0), (b"lost".to_vec(), 32), (vec![0xff, b'x'], 0)],
        data,
    )
    .unwrap();
    let (mut base, _) = SegmentedIndex::open(None);
    base.load(loaded);
    let index = Index::open(base, None, 0);
    let found = index.search("").unwrap();
    assert_eq!(found.len(), 1);
    assert_eq!(found[0].path, "good");
}

#[test]
fn candidates_keep_the_first_of_equal_sequences() {
    let mut table = Candidates::new();
    table.offer("Readme".to_string(), put(5, 1));
    table.offer("README".to_string(), put(5, 2));
    table.offer("other".to_string(), put(1, 3));
    table.offer("readme".to_string(), put(4, 4));
    let shown = table.results();
    assert_eq!(shown.len(), 2);
    assert_eq!(shown[0].path, "Readme");
    assert_eq!(shown[0].last_modified, 1);
    table.offer("rEADME".to_string(), put(6, 5));
    table.offer("OTHER".to_string(), IndexEntry::tombstone(2));
    let shown = table.results();
    assert_eq!(shown.len(), 1);
    assert_eq!(shown[0].path, "rEADME");
}

#[test]
fn candidates_fold_case_beyond_ascii() {
    let mut table = Candidates::new();
    table.offer("\u{c4}PFEL".to_string(), put(1, 1));
    table.offer("\u{e4}pfel".to_string(), put(2, 2));
    let shown = table.results();
    assert_eq!(shown.len(), 1);
    assert_eq!(shown[0].path, "\u{e4}pfel");
}

fn result(path: &str, kind: Kind, modified: u64, accessed: u64) -> SearchResult {
    SearchResult { path: path.to_string(), kind, last_modified: modified, last_accessed: accessed }
}

#[test]
fn results_sort_by_time_then_kind_then_path() {
    let sorted = sort_results(vec![
        result("b", Kind::File, 1, 0),
        result("a", Kind::Symlink, 2, 0),
        result("a", Kind::File, 1, 0),
        result("c", Kind::Directory, 2, 0),
        result("a/b", Kind::File, 1, 0),
        result("a.b", Kind::File, 1, 0),
        result("z", Kind::File, 3, 0),
    ]);
    let order: Vec<(&str, Kind, u64)> =
        sorted.iter().map(|r| (r.path.as_str(), r.kind, r.last_modified)).collect();
    assert_eq!(
        order,
        vec![
            ("z", Kind::File, 3),
            ("c", Kind::Directory, 2),
            ("a", Kind::Symlink, 2),
            ("a", Kind::File, 1),
            ("a.b", Kind::File, 1),
            ("a/b", Kind::File, 1),
            ("b", Kind::File, 1),
        ]
    );
    assert!(sorted[0].precedes(&sorted[1]));
    assert!(!sorted[1].precedes(&sorted[0]));
    assert!(!sorted[0].precedes(&sorted[0]));
    assert!(sort_results(Vec::new()).is_empty());
}

#[test]
fn pattern_that_does_not_compile_gives_the_text_of_the_error() {
    assert!(RegexMatcher::new("(").is_err());
    let text = RegexMatcher::compile("(").err().unwrap();
    assert!(!text.is_empty());
    assert!(RegexMatcher::compile("a(b)").is_ok());
}

#[test]
fn config_defaults_and_knobs() {
    let config = CompactorConfig::default();
    assert_eq!(config.min_merge_count, 4);
    assert_eq!(config.memory_threshold, 100 * 1024 * 1024);
    assert_eq!(config.deletion_threshold, 1000);
    let config = CompactorConfigBuilder::new()
        .min_merge_count(2)
        .memory_threshold(7)
        .deletion_threshold(9)
        .build();
    assert_eq!(config.min_merge_count, 2);
    assert_eq!(config.memory_threshold, 7);
    assert_eq!(config.deletion_threshold, 9);
}

#[test]
fn counter_starts_at_the_later_of_marker_and_clock() {
    let open = |last_op, now| Index::open(SegmentedIndex::open(None).0, last_op, now).last_op();
    assert_eq!(open(None, 77), 77);
    assert_eq!(open(Some(100), 77), 100);
    assert_eq!(open(Some(50), 77), 77);
    let with = Index::open_with_config(
        SegmentedIndex::open(None).0,
        Some(3),
        2,
        CompactorConfigBuilder::new().min_merge_count(0).build(),
    );
    assert_eq!(with.last_op(), 3);
    assert!(!with.should_compact(false));
}

#[test]
fn results_compare_as_they_sort() {
    let newer = result("b", Kind::File, 2, 0);
    let older = result("a", Kind::File, 1, 0);
    assert!(newer < older);
    assert_eq!(newer.partial_cmp(&older), Some(Ordering::Less));
    assert_eq!(older.partial_cmp(&newer), Some(Ordering::Greater));
    assert_eq!(result("a", Kind::File, 1, 5).partial_cmp(&older), Some(Ordering::Equal));
    assert!(result("a", Kind::File, 1, 0) < result("a", Kind::Directory, 1, 0));
    assert!(result("a", Kind::Directory, 1, 0) < result("a", Kind::Symlink, 1, 0));
}

#[test]
fn merge_does_not_depend_on_where_a_segment_stores_a_key() {
    let snapshot = vec![
        segment(vec![("a", put(1, 1)), ("b", put(2, 2)), ("k", put(9, 100))]),
        segment(vec![("k", put(9, 200))]),
        segment(vec![("j", put(3, 3)), ("k", put(8, 300))]),
    ];
    let items = merge_entries(&snapshot);
    assert_eq!(items[3], (b"k".to_vec(), put(9, 100)));
    let reversed = vec![snapshot[2].clone(), snapshot[1].clone(), snapshot[0].clone()];
    assert_eq!(merge_entries(&reversed)[3], (b"k".to_vec(), put(9, 200)));
}
