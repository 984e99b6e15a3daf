use minidex::Opstamp;

#[test]
fn insertion_clears_the_flag() {
    let stamp = Opstamp::insertion(7);
    assert!(!stamp.is_deletion());
    assert_eq!(stamp.sequence(), 7);
    assert_eq!(stamp.value(), 7);
}

#[test]
fn deletion_sets_the_flag() {
    let stamp = Opstamp::deletion(7);
    assert!(stamp.is_deletion());
    assert_eq!(stamp.sequence(), 7);
    assert_eq!(stamp.value(), 7 | (1u64 << 63));
}
