use minidex::segmented_index::{Segment, SegmentedIndex};
use minidex::{FilesystemEntry, Index, Kind, SearchResult};

fn open_empty(now: u64) -> Index {
    let (base, last_op) = SegmentedIndex::open(None);
    assert_eq!(last_op, None);
    Index::open(base, last_op, now)
}

fn file(path: &str, modified: u64) -> FilesystemEntry {
    FilesystemEntry {
        path: path.to_string(),
        kind: Kind::File,
        last_modified: modified,
        last_accessed: modified,
    }
}

fn commit(index: &mut Index) -> bool {
    match index.commit() {
        Some(pending) => {
            index.load(pending.segment);
            true
        }
        None => false,
    }
}

fn paths(results: &[SearchResult]) -> Vec<String> {
    results.iter().map(|r| r.path.clone()).collect()
}

#[test]
fn tombstone_then_reinsert() {
    let mut index = open_empty(1_000);
    index.insert(file("Learning.pdf", 100), false);
    assert!(commit(&mut index));
    index.delete("Learning.pdf");
    index.insert(file("Learning.pdf", 200), false);
    let results = index.search("Le").unwrap();
    assert_eq!(results.len(), 1);
    assert_eq!(results[0].path, "Learning.pdf");
    assert_eq!(results[0].last_modified, 200);
}

#[test]
fn tombstone_hides_a_committed_key() {
    let mut index = open_empty(1_000);
    index.insert(file("Learning.pdf", 100), false);
    assert!(commit(&mut index));
    index.delete("Learning.pdf");
    assert!(index.search("Le").unwrap().is_empty());
    assert!(commit(&mut index));
    assert!(index.search("Le").unwrap().is_empty());
}

#[test]
fn cross_segment_precedence() {
    let mut index = open_empty(1_000);
    index.insert(file("a", 1), false);
    assert!(commit(&mut index));
    index.insert(file("a", 2), false);
    assert!(commit(&mut index));
    let results = index.search("a").unwrap();
    assert_eq!(results.len(), 1);
    assert_eq!(results[0].last_modified, 2);
}

#[test]
fn subsequence_match() {
    let mut index = open_empty(1_000);
    index.insert(file("my-photo.jpg", 1), false);
    index.insert(file("jpeg-viewer.md", 2), false);
    assert_eq!(paths(&index.search("jpg").unwrap()), vec!["my-photo.jpg".to_string()]);
    assert!(commit(&mut index));
    assert_eq!(paths(&index.search("jpg").unwrap()), vec!["my-photo.jpg".to_string()]);
}

#[test]
fn case_folding() {
    let mut index = open_empty(1_000);
    index.insert(file("README.MD", 1), false);
    assert_eq!(index.search("readme").unwrap().len(), 1);
    assert!(commit(&mut index));
    index.insert(file("readme.md", 2), false);
    let results = index.search("readme").unwrap();
    assert_eq!(results.len(), 1);
    assert_eq!(results[0].path, "readme.md");
    assert_eq!(results[0].last_modified, 2);
}

#[test]
fn commit_of_an_empty_overlay_does_nothing() {
    let mut index = open_empty(1_000);
    let before = index.last_op();
    assert!(index.commit().is_none());
    assert_eq!(index.last_op(), before);
    assert!(index.search("").unwrap().is_empty());
}

#[test]
fn rollback_discards_the_overlay() {
    let mut index = open_empty(1_000);
    index.insert(file("kept.txt", 1), false);
    assert!(commit(&mut index));
    let before = index.search("txt").unwrap();
    index.insert(file("dropped.txt", 2), false);
    index.delete("kept.txt");
    index.rollback();
    assert_eq!(index.search("txt").unwrap(), before);
    assert_eq!(paths(&before), vec!["kept.txt".to_string()]);
}

#[test]
fn reopen_from_what_a_commit_stored() {
    let mut index = open_empty(1_000);
    for i in 0..20u64 {
        index.insert(file(&format!("dir/file-{:02}.txt", i), i), false);
    }
    let pending = index.commit().unwrap();
    let pairs = pending.segment.pairs();
    let data = pending.segment.data().clone();
    let marker = index.last_op();
    let text = SegmentedIndex::open(None).0.save_last_op(marker);

    let (mut base, last_op) = SegmentedIndex::open(Some(&text));
    assert_eq!(last_op, Some(marker));
    base.load(Segment::load(pairs, data).unwrap());
    let reopened = Index::open(base, last_op, 5);
    assert_eq!(reopened.last_op(), marker);
    let results = reopened.search("file").unwrap();
    assert_eq!(results.len(), 20);
    assert_eq!(results[0].path, "dir/file-19.txt");
    assert_eq!(results[19].path, "dir/file-00.txt");
}

#[test]
fn results_are_sorted_by_time_kind_and_path() {
    let mut index = open_empty(1_000);
    index.insert(file("b", 5), false);
    index.insert(file("a", 5), false);
    index.insert(
        FilesystemEntry {
            path: "c".to_string(),
            kind: Kind::Directory,
            last_modified: 5,
            last_accessed: 5,
        },
        false,
    );
    index.insert(
        FilesystemEntry {
            path: "0".to_string(),
            kind: Kind::Symlink,
            last_modified: 5,
            last_accessed: 5,
        },
        false,
    );
    index.insert(file("z", 9), false);
    assert_eq!(
        paths(&index.search("").unwrap()),
        vec!["z".to_string(), "a".to_string(), "b".to_string(), "c".to_string(), "0".to_string()]
    );
}

#[test]
fn opstamps_grow_with_each_mutation() {
    let mut index = open_empty(1_000);
    assert_eq!(index.last_op(), 1_000);
    index.insert(file("a", 1), false);
    assert_eq!(index.last_op(), 1_001);
    index.delete("a");
    assert_eq!(index.last_op(), 1_002);
    let pending = index.commit().unwrap();
    assert_eq!(pending.seq, 1_002);
    assert_eq!(index.last_op(), 1_003);
    let entry = pending.segment.get_entry(0).unwrap();
    assert!(entry.opstamp.is_deletion());
    assert_eq!(entry.opstamp.sequence(), 1_001);
}

#[test]
fn compaction_is_due_above_the_merge_count() {
    let mut index = open_empty(1_000);
    for i in 0..5u64 {
        assert!(index.insert(file(&format!("f{}", i), i), false).is_none());
        assert!(commit(&mut index));
    }
    assert!(index.should_compact(false));
    assert!(!index.should_compact(true));
    assert!(index.insert(file("x", 1), true).is_none());
    let before = index.last_op();
    let job = index.insert(file("y", 1), false).unwrap();
    assert_eq!(job.snapshot.len(), 5);
    assert_eq!(job.seq, before + 1);
    assert_eq!(index.last_op(), before + 2);
}
