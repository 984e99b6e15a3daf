//! An embedded, append-only, searchable index over short UTF-8 keys,
//! typically filesystem paths, each with a small fixed-size record.
//!
//! Writes land in a memory overlay under a fresh operation stamp. A commit
//! turns the overlay into an immutable segment: a key map from each key to
//! an offset, and the records that the offsets point into. A search
//! compiles the query into a pattern, scans the overlay and every segment
//! with it, keeps for each case-folded path the entry with the greatest
//! sequence number, drops the tombstones and sorts the rest. A compaction
//! merges a snapshot of segments into one.
//!
//! The crate holds the state of the index and the rules by which it
//! changes, with their proofs. It does no I/O: the files, the locks, the
//! clock and the threads belong to its caller.
//!
//! The key maps, the pattern automaton and the escaping of patterns come
//! from the `fst`, `regex-automata` and `regex-syntax` crates. Every call
//! into them stands in a function whose doc comment starts with
//! "Trusted:"; the contract of such a function is taken on trust.

pub mod common;
pub mod entry;
pub mod fuzzy;
pub mod index;
pub mod keys;
pub mod last_op;
pub mod matcher;
pub mod opstamp;
mod order;
pub mod overlay;
pub mod pattern;
pub mod search;
pub mod segmented_index;
mod text;

pub use common::Kind;
pub use entry::FilesystemEntry;
pub use index::{Index, IndexError};
pub use opstamp::Opstamp;
pub use search::SearchResult;
pub use segmented_index::compactor::{CompactorConfig, CompactorConfigBuilder};
