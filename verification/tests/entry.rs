use minidex::entry::{EntryError, IndexEntry, ENTRY_SIZE};
use minidex::{FilesystemEntry, Kind, Opstamp};

fn sample() -> IndexEntry {
    IndexEntry {
        opstamp: Opstamp::deletion(0x0102_0304_0506_0708),
        kind: Kind::Symlink,
        content_type: 0x0a0b_0c0d,
        last_modified: 0x1112_1314_1516_1718,
        last_accessed: 0x2122_2324_2526_2728,
    }
}

#[test]
fn entry_is_stored_field_by_field_little_endian() {
    let bytes = sample().to_bytes();
    assert_eq!(ENTRY_SIZE, 32);
    assert_eq!(
        bytes,
        vec![
            0x08, 0x07, 0x06, 0x05, 0x04, 0x03, 0x02, 0x81, // opstamp, flag in the top bit
            0x02, 0x00, 0x00, 0x00, // kind and padding
            0x0d, 0x0c, 0x0b, 0x0a, // content type
            0x18, 0x17, 0x16, 0x15, 0x14, 0x13, 0x12, 0x11, // last modified
            0x28, 0x27, 0x26, 0x25, 0x24, 0x23, 0x22, 0x21, // last accessed
        ]
    );
}

#[test]
fn entry_round_trip() {
    let entry = sample();
    assert_eq!(IndexEntry::from_bytes(&entry.to_bytes()), Ok(entry));
    let zero = IndexEntry::tombstone(0);
    assert_eq!(IndexEntry::from_bytes(&zero.to_bytes()), Ok(zero));
    let max = IndexEntry {
        opstamp: Opstamp::from(u64::MAX),
        kind: Kind::Directory,
        content_type: u32::MAX,
        last_modified: u64::MAX,
        last_accessed: u64::MAX,
    };
    assert_eq!(IndexEntry::from_bytes(&max.to_bytes()), Ok(max));
}

#[test]
fn entry_of_a_wrong_size_is_invalid() {
    let bytes = sample().to_bytes();
    assert_eq!(IndexEntry::from_bytes(&bytes[..31]), Err(EntryError::InvalidSize));
    assert_eq!(IndexEntry::from_bytes(&[]), Err(EntryError::InvalidSize));
    let mut longer = bytes.clone();
    longer.push(0);
    assert_eq!(IndexEntry::from_bytes(&longer), Err(EntryError::InvalidSize));
}

#[test]
fn entry_of_an_unknown_kind_is_invalid() {
    let mut bytes = sample().to_bytes();
    bytes[8] = 3;
    assert_eq!(IndexEntry::from_bytes(&bytes), Err(EntryError::InvalidKind));
    bytes[8] = 255;
    assert_eq!(IndexEntry::from_bytes(&bytes), Err(EntryError::InvalidKind));
}

#[test]
fn padding_is_not_read() {
    let mut bytes = sample().to_bytes();
    bytes[9] = 7;
    bytes[10] = 8;
    bytes[11] = 9;
    assert_eq!(IndexEntry::from_bytes(&bytes), Ok(sample()));
}

#[test]
fn tombstone_carries_only_its_stamp() {
    let entry = IndexEntry::tombstone(42);
    assert!(entry.opstamp.is_deletion());
    assert_eq!(entry.opstamp.sequence(), 42);
    assert_eq!(entry.kind, Kind::File);
    assert_eq!(entry.content_type, 0);
    assert_eq!(entry.last_modified, 0);
    assert_eq!(entry.last_accessed, 0);
}

#[test]
fn insertion_takes_the_metadata_of_the_item() {
    let item = FilesystemEntry {
        path: "a/b".to_string(),
        kind: Kind::Directory,
        last_modified: 5,
        last_accessed: 6,
    };
    let entry = IndexEntry::insertion(&item, (1u64 << 63) | 9);
    assert!(!entry.opstamp.is_deletion());
    assert_eq!(entry.opstamp.sequence(), 9);
    assert_eq!(entry.kind, Kind::Directory);
    assert_eq!(entry.content_type, 0);
    assert_eq!(entry.last_modified, 5);
    assert_eq!(entry.last_accessed, 6);
}

#[test]
fn kind_and_its_byte() {
    assert_eq!(Kind::File.into(), 0);
    assert_eq!(Kind::Directory.into(), 1);
    assert_eq!(Kind::Symlink.into(), 2);
    assert_eq!(Kind::from(0), Kind::File);
    assert_eq!(Kind::from(1), Kind::Directory);
    assert_eq!(Kind::from(2), Kind::Symlink);
    assert_eq!(Kind::from_byte(2), Some(Kind::Symlink));
    assert_eq!(Kind::from_byte(3), None);
    assert!(Kind::File < Kind::Directory && Kind::Directory < Kind::Symlink);
}

#[test]
fn opstamp_flag_is_the_top_bit() {
    assert!(Opstamp::from(1u64 << 63).is_deletion());
    assert!(Opstamp::from(u64::MAX).is_deletion());
    assert!(!Opstamp::from(1).is_deletion());
    assert!(!Opstamp::from((1u64 << 63) - 1).is_deletion());
    assert_eq!(Opstamp::from(u64::MAX).sequence(), (1u64 << 63) - 1);
    assert_eq!(Opstamp::insertion(u64::MAX).value(), (1u64 << 63) - 1);
    assert_eq!(Opstamp::deletion(u64::MAX).value(), u64::MAX);
    assert_eq!(Opstamp::deletion(0).sequence(), 0);
}

#[test]
fn opstamps_are_ordered_by_sequence() {
    assert!(Opstamp::insertion(3).sequence() < Opstamp::deletion(4).sequence());
    assert!(Opstamp::deletion(3).sequence() < Opstamp::insertion(4).sequence());
}
