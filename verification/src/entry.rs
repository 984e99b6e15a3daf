//! Entry records and their fixed-size, little-endian stored form.
//!
//! | offset | size | field                 |
//! |--------|------|-----------------------|
//! | 0      | 8    | opstamp               |
//! | 8      | 1    | kind                  |
//! | 9      | 3    | padding, zero         |
//! | 12     | 4    | content type          |
//! | 16     | 8    | last modified, micros |
//! | 24     | 8    | last accessed, micros |

use crate::common::Kind;
use crate::opstamp::Opstamp;
use vstd::bytes::*;
use vstd::prelude::*;
use vstd::slice::*;

verus! {

/// The number of bytes that one stored entry record takes.
pub const ENTRY_SIZE: usize = 32;

/// The metadata kept for a key at its latest opstamp.
#[derive(Debug, Clone, Copy, PartialEq, Eq)]
pub struct IndexEntry {
    pub opstamp: Opstamp,
    pub kind: Kind,
    pub content_type: u32,
    pub last_modified: u64,
    pub last_accessed: u64,
}

/// Why a run of bytes is not an entry record.
#[derive(Debug, Clone, Copy, PartialEq, Eq)]
pub enum EntryError {
    /// The run does not have exactly `ENTRY_SIZE` bytes.
    InvalidSize,
    /// The byte at offset 8 stands for no kind.
    InvalidKind,
}

/// What a caller hands to the index to have a path recorded.
#[derive(Debug, Clone, PartialEq, Eq)]
pub struct FilesystemEntry {
    pub path: String,
    pub kind: Kind,
    pub last_modified: u64,
    pub last_accessed: u64,
}

impl IndexEntry {
    /// The stored form of an entry: its fields in order, little-endian, with
    /// three zero bytes after the kind.
    pub open spec fn spec_to_bytes(self) -> Seq<u8> {
        spec_u64_to_le_bytes(self.opstamp.0) + seq![self.kind.spec_into(), 0u8, 0u8, 0u8]
            + spec_u32_to_le_bytes(self.content_type) + spec_u64_to_le_bytes(self.last_modified)
            + spec_u64_to_le_bytes(self.last_accessed)
    }

    /// The entry that a run of bytes stores. The padding is not looked at.
    pub open spec fn spec_from_bytes(bytes: Seq<u8>) -> Result<IndexEntry, EntryError> {
        if bytes.len() != 32 {
            Err(EntryError::InvalidSize)
        } else {
            match Kind::spec_from_byte(bytes[8]) {
                None => Err(EntryError::InvalidKind),
                Some(kind) => Ok(
                    IndexEntry {
                        opstamp: Opstamp(spec_u64_from_le_bytes(bytes.subrange(0, 8))),
                        kind,
                        content_type: spec_u32_from_le_bytes(bytes.subrange(12, 16)),
                        last_modified: spec_u64_from_le_bytes(bytes.subrange(16, 24)),
                        last_accessed: spec_u64_from_le_bytes(bytes.subrange(24, 32)),
                    },
                ),
            }
        }
    }

    /// The record of a deletion: the tombstone stamp over zeroed metadata.
    pub open spec fn spec_tombstone(seq: u64) -> IndexEntry {
        IndexEntry {
            opstamp: Opstamp((seq % 0x8000_0000_0000_0000 + 0x8000_0000_0000_0000) as u64),
            kind: Kind::File,
            content_type: 0,
            last_modified: 0,
            last_accessed: 0,
        }
    }

    /// The record of an insertion of `item` under the given sequence number.
    pub open spec fn spec_insertion(item: FilesystemEntry, seq: u64) -> IndexEntry {
        IndexEntry {
            opstamp: Opstamp((seq % 0x8000_0000_0000_0000) as u64),
            kind: item.kind,
            content_type: 0,
            last_modified: item.last_modified,
            last_accessed: item.last_accessed,
        }
    }

    /// Builds the record of a deletion.
    pub fn tombstone(seq: u64) -> (entry: IndexEntry)
        ensures
            entry == IndexEntry::spec_tombstone(seq),
            entry.opstamp.spec_is_deletion(),
    {
        IndexEntry {
            opstamp: Opstamp::deletion(seq),
            kind: Kind::File,
            content_type: 0,
            last_modified: 0,
            last_accessed: 0,
        }
    }

    /// Builds the record of an insertion of `item`.
    pub fn insertion(item: &FilesystemEntry, seq: u64) -> (entry: IndexEntry)
        ensures
            entry == IndexEntry::spec_insertion(*item, seq),
            !entry.opstamp.spec_is_deletion(),
    {
        IndexEntry {
            opstamp: Opstamp::insertion(seq),
            kind: item.kind,
            content_type: 0,
            last_modified: item.last_modified,
            last_accessed: item.last_accessed,
        }
    }

    /// Serializes the entry into exactly `ENTRY_SIZE` bytes.
    pub fn to_bytes(self) -> (bytes: Vec<u8>)
        ensures
            bytes@ == self.spec_to_bytes(),
            bytes@.len() == ENTRY_SIZE,
    {
        let mut bytes = u64_to_le_bytes(self.opstamp.0);
        bytes.push(self.kind.into());
        bytes.push(0);
        bytes.push(0);
        bytes.push(0);
        let mut part = u32_to_le_bytes(self.content_type);
        bytes.append(&mut part);
        let mut part = u64_to_le_bytes(self.last_modified);
        bytes.append(&mut part);
        let mut part = u64_to_le_bytes(self.last_accessed);
        bytes.append(&mut part);
        assert(bytes@ =~= self.spec_to_bytes());
        bytes
    }

    /// Reads an entry back from its stored form.
    ///
    /// Fails with `InvalidSize` unless exactly `ENTRY_SIZE` bytes are given,
    /// and with `InvalidKind` when the kind byte is none of the known kinds.
    pub fn from_bytes(bytes: &[u8]) -> (entry: Result<IndexEntry, EntryError>)
        ensures
            entry == IndexEntry::spec_from_bytes(bytes@),
    {
        if bytes.len() != ENTRY_SIZE {
            return Err(EntryError::InvalidSize);
        }
        let kind = match Kind::from_byte(bytes[8]) {
            None => {
                return Err(EntryError::InvalidKind);
            },
            Some(kind) => kind,
        };
        Ok(
            IndexEntry {
                opstamp: Opstamp(u64_from_le_bytes(slice_subrange(bytes, 0, 8))),
                kind,
                content_type: u32_from_le_bytes(slice_subrange(bytes, 12, 16)),
                last_modified: u64_from_le_bytes(slice_subrange(bytes, 16, 24)),
                last_accessed: u64_from_le_bytes(slice_subrange(bytes, 24, 32)),
            },
        )
    }
}

/// Encoding an entry and decoding the bytes gives the entry back.
pub proof fn lemma_entry_round_trip(entry: IndexEntry)
    ensures
        entry.spec_to_bytes().len() == ENTRY_SIZE,
        IndexEntry::spec_from_bytes(entry.spec_to_bytes()) == Ok::<IndexEntry, EntryError>(entry),
{
    lemma_auto_spec_u64_to_from_le_bytes();
    lemma_auto_spec_u32_to_from_le_bytes();
    let bytes = entry.spec_to_bytes();
    assert(bytes.len() == 32);
    assert(bytes[8] == entry.kind.spec_into());
    assert(bytes.subrange(0, 8) =~= spec_u64_to_le_bytes(entry.opstamp.0));
    assert(bytes.subrange(12, 16) =~= spec_u32_to_le_bytes(entry.content_type));
    assert(bytes.subrange(16, 24) =~= spec_u64_to_le_bytes(entry.last_modified));
    assert(bytes.subrange(24, 32) =~= spec_u64_to_le_bytes(entry.last_accessed));
}

} // verus!
