//! Segments and the list of segments that an index has committed.
//!
//! A segment is immutable: a key map from each key to an offset, and a blob
//! of fixed-size entry records that the offsets point into.

use crate::entry::{lemma_entry_round_trip, IndexEntry, ENTRY_SIZE};
use crate::keys::{
    bytes_lt, key_bytes, key_lt, lemma_bytes_lt_irreflexive, lemma_bytes_lt_transitive,
};
use crate::last_op::{format_last_op, parse_last_op, spec_decimal, spec_parse_last_op};
use crate::overlay::{entries_ascending, entries_view};
use crate::matcher::RegexMatcher;
use crate::segmented_index::fst_map::{
    builder_insert, builder_into_map, builder_new, builder_pairs, error_text, fst_error_text,
    fst_image, keys_ascending,
    map_all_pairs, map_image, map_matching_pairs, map_pairs, pairs_view, stream_accepts,
};
use std::sync::Arc;
use vstd::prelude::*;
use vstd::slice::*;
use vstd::string::*;

pub mod compactor;
pub mod fst_map;

verus! {

/// What a segment holds.
pub struct SegmentView {
    /// The keys with their offsets, in the order of the keys.
    pub pairs: Seq<(Seq<u8>, u64)>,
    /// The entry records, one after the other.
    pub data: Seq<u8>,
}

/// An immutable batch of committed entries.
pub struct Segment {
    pub(crate) map: fst::Map<Vec<u8>>,
    pub(crate) data: Vec<u8>,
}

/// Why a segment could not be made.
#[derive(Debug)]
pub enum SegmentedIndexError {
    /// The key map refused a key: the keys did not ascend strictly.
    Fst(fst::Error),
}

impl SegmentedIndexError {
    /// The error in words: the text that the key map gives for its error.
    pub open spec fn spec_message(&self) -> Seq<char> {
        match *self {
            SegmentedIndexError::Fst(error) => fst_error_text(error),
        }
    }

    /// The error in words: the text that the key map gives for its error.
    /// The key map says `FST error` where it refused a key, and `I/O error`
    /// where it could not write.
    pub fn message(&self) -> (text: String)
        ensures
            text@ == self.spec_message(),
            text@ == "FST error"@ || text@ == "I/O error"@,
    {
        match self {
            SegmentedIndexError::Fst(error) => error_text(error),
        }
    }
}

/// The record that `data` holds at `offset`: the entry stored in the
/// `ENTRY_SIZE` bytes from there, if there are that many and they are an
/// entry.
pub open spec fn spec_get_entry(data: Seq<u8>, offset: u64) -> Option<IndexEntry> {
    if offset + 32 <= data.len() {
        match IndexEntry::spec_from_bytes(data.subrange(offset as int, offset + 32)) {
            Ok(entry) => Some(entry),
            Err(_) => None,
        }
    } else {
        None
    }
}

/// The stored forms of `entries`, one after the other.
pub open spec fn spec_records(entries: Seq<IndexEntry>) -> Seq<u8>
    decreases entries.len(),
{
    if entries.len() == 0 {
        Seq::empty()
    } else {
        spec_records(entries.drop_last()) + entries.last().spec_to_bytes()
    }
}

/// The entries of `items`, without their keys.
pub open spec fn item_entries(items: Seq<(Seq<u8>, IndexEntry)>) -> Seq<IndexEntry> {
    Seq::new(items.len(), |i: int| items[i].1)
}

/// The keys of `items` stand in strictly ascending byte order.
pub open spec fn items_ascending(items: Seq<(Seq<u8>, IndexEntry)>) -> bool {
    forall|i: int, j: int|
        #![trigger items[i], items[j]]
        0 <= i < j < items.len() ==> bytes_lt(items[i].0, items[j].0)
}

/// The segment that stores `items` in their order: the record of item `i`
/// lies at offset `32 * i`, and the key of the item maps to that offset.
pub open spec fn spec_segment(items: Seq<(Seq<u8>, IndexEntry)>) -> SegmentView {
    SegmentView {
        pairs: Seq::new(items.len(), |i: int| (items[i].0, (32 * i) as u64)),
        data: spec_records(item_entries(items)),
    }
}

/// Items with owned keys, seen as items with byte sequences for keys.
pub open spec fn items_view(items: Seq<(Vec<u8>, IndexEntry)>) -> Seq<(Seq<u8>, IndexEntry)> {
    Seq::new(items.len(), |i: int| (items[i].0@, items[i].1))
}

/// Entries under keys, seen as items under the bytes of the keys.
pub open spec fn keyed_items(entries: Seq<(Seq<char>, IndexEntry)>) -> Seq<(Seq<u8>, IndexEntry)> {
    Seq::new(entries.len(), |i: int| (key_bytes(entries[i].0), entries[i].1))
}

impl SegmentView {
    /// The keys ascend strictly, so no key occurs twice.
    pub open spec fn wf(self) -> bool {
        keys_ascending(self.pairs)
    }

    /// The entry that the segment gives for pair number `i`, if the offset
    /// of the pair points at one.
    pub open spec fn entry_at(self, i: int) -> Option<IndexEntry> {
        spec_get_entry(self.data, self.pairs[i].1)
    }

    /// Whether the segment holds `key`.
    pub open spec fn has_key(self, key: Seq<u8>) -> bool {
        exists|j: int| 0 <= j < self.pairs.len() && (#[trigger] self.pairs[j]).0 == key
    }

    /// The entry that the segment gives for `key`: the one at the offset of
    /// the key, if the segment holds the key and the offset points at an
    /// entry.
    pub open spec fn entry_for(self, key: Seq<u8>) -> Option<IndexEntry> {
        if self.has_key(key) {
            self.entry_at(
                choose|j: int| 0 <= j < self.pairs.len() && (#[trigger] self.pairs[j]).0 == key,
            )
        } else {
            None
        }
    }
}

/// In a well-formed segment the entry for a key is the one at the offset of
/// any pair that has the key: there is one such pair only.
pub proof fn lemma_entry_for(segment: SegmentView, j: int)
    requires
        segment.wf(),
        0 <= j < segment.pairs.len(),
    ensures
        segment.has_key(segment.pairs[j].0),
        segment.entry_for(segment.pairs[j].0) == segment.entry_at(j),
{
    let key = segment.pairs[j].0;
    let chosen = choose|c: int|
        0 <= c < segment.pairs.len() && (#[trigger] segment.pairs[c]).0 == key;
    lemma_bytes_lt_irreflexive(key);
    if chosen < j {
        assert(bytes_lt(segment.pairs[chosen].0, segment.pairs[j].0));
    } else if j < chosen {
        assert(bytes_lt(segment.pairs[j].0, segment.pairs[chosen].0));
    }
}

/// The records of `n` entries take `32 * n` bytes.
pub proof fn lemma_records_len(entries: Seq<IndexEntry>)
    ensures
        spec_records(entries).len() == 32 * entries.len(),
    decreases entries.len(),
{
    if entries.len() > 0 {
        lemma_records_len(entries.drop_last());
        lemma_entry_round_trip(entries.last());
    }
}

/// Record number `i` of the stored form of `entries` is the stored form of
/// entry number `i`.
pub proof fn lemma_records_at(entries: Seq<IndexEntry>, i: int)
    requires
        0 <= i < entries.len(),
    ensures
        spec_records(entries).len() == 32 * entries.len(),
        spec_records(entries).subrange(32 * i, 32 * i + 32) == entries[i].spec_to_bytes(),
    decreases entries.len(),
{
    lemma_records_len(entries);
    lemma_records_len(entries.drop_last());
    lemma_entry_round_trip(entries.last());
    if i == entries.len() - 1 {
        assert(spec_records(entries).subrange(32 * i, 32 * i + 32) =~= entries[i].spec_to_bytes());
    } else {
        lemma_records_at(entries.drop_last(), i);
        assert(spec_records(entries).subrange(32 * i, 32 * i + 32) =~= spec_records(
            entries.drop_last(),
        ).subrange(32 * i, 32 * i + 32));
    }
}

/// A segment gives back each item that it was made of: the record at the
/// offset of item `i` decodes to the entry of item `i`.
pub proof fn lemma_segment_entry(items: Seq<(Seq<u8>, IndexEntry)>, i: int)
    requires
        0 <= i < items.len(),
        32 * items.len() <= u64::MAX,
    ensures
        spec_segment(items).pairs[i] == (items[i].0, (32 * i) as u64),
        spec_segment(items).entry_at(i) == Some(items[i].1),
{
    lemma_records_at(item_entries(items), i);
    lemma_entry_round_trip(items[i].1);
}

impl View for Segment {
    type V = SegmentView;

    closed spec fn view(&self) -> SegmentView {
        SegmentView { pairs: map_pairs(self.map), data: self.data@ }
    }
}

/// Builds the key map that holds `pairs`.
fn build_map(pairs: &Vec<(Vec<u8>, u64)>) -> (built: Result<fst::Map<Vec<u8>>, fst::Error>)
    ensures
        built is Ok <==> keys_ascending(pairs_view(pairs@)),
        built is Ok ==> map_pairs(built->Ok_0) == pairs_view(pairs@),
{
    let ghost all = pairs_view(pairs@);
    let mut builder = builder_new();
    let mut i: usize = 0;
    while i < pairs.len()
        invariant
            i <= pairs.len(),
            all == pairs_view(pairs@),
            builder_pairs(builder) == all.take(i as int),
            keys_ascending(all.take(i as int)),
        decreases pairs.len() - i,
    {
        let ghost before = builder_pairs(builder);
        match builder_insert(&mut builder, pairs[i].0.as_slice(), pairs[i].1) {
            Ok(()) => {},
            Err(error) => {
                proof {
                    assert(before.last() == all[i - 1]);
                    assert(!bytes_lt(all[i - 1].0, all[i as int].0));
                }
                return Err(error);
            },
        }
        proof {
            assert(all.take(i + 1) =~= before.push((pairs[i as int].0@, pairs[i as int].1)));
            assert forall|a: int, b: int| 0 <= a < b < i + 1 implies bytes_lt(
                (#[trigger] all.take(i + 1)[a]).0,
                (#[trigger] all.take(i + 1)[b]).0,
            ) by {
                if b == i && i > 0 {
                    assert(before.last() == all.take(i as int)[i - 1]);
                    if a < i - 1 {
                        assert(bytes_lt(all.take(i as int)[a].0, all.take(i as int)[i - 1].0));
                        lemma_bytes_lt_transitive(all[a].0, all[i - 1].0, all[i as int].0);
                    }
                } else {
                    assert(bytes_lt(all.take(i as int)[a].0, all.take(i as int)[b].0));
                }
            }
        }
        i = i + 1;
    }
    proof {
        assert(all.take(i as int) =~= all);
    }
    Ok(builder_into_map(builder))
}

impl Segment {
    #[verifier::type_invariant]
    spec fn well_formed(&self) -> bool {
        keys_ascending(map_pairs(self.map))
    }

    /// Makes a segment from the pairs of its key map and from its records.
    ///
    /// Fails exactly when the keys do not ascend strictly.
    pub fn load(pairs: Vec<(Vec<u8>, u64)>, data: Vec<u8>) -> (loaded: Result<
        Segment,
        SegmentedIndexError,
    >)
        ensures
            loaded is Ok <==> keys_ascending(pairs_view(pairs@)),
            loaded is Ok ==> loaded->Ok_0@ == (SegmentView {
                pairs: pairs_view(pairs@),
                data: data@,
            }),
    {
        match build_map(&pairs) {
            Ok(map) => Ok(Segment { map, data }),
            Err(error) => Err(SegmentedIndexError::Fst(error)),
        }
    }

    /// Makes the segment that stores `items` in their order.
    ///
    /// Fails exactly when the keys do not ascend strictly.
    pub fn build(items: &Vec<(Vec<u8>, IndexEntry)>) -> (built: Result<
        Segment,
        SegmentedIndexError,
    >)
        ensures
            built is Ok <==> items_ascending(items_view(items@)),
            built is Ok ==> built->Ok_0@ == spec_segment(items_view(items@)),
    {
        let ghost all = items_view(items@);
        let mut pairs: Vec<(Vec<u8>, u64)> = Vec::new();
        let mut data: Vec<u8> = Vec::new();
        let mut i: usize = 0;
        while i < items.len()
            invariant
                i <= items.len(),
                all == items_view(items@),
                pairs_view(pairs@) == spec_segment(all).pairs.take(i as int),
                data@ == spec_records(item_entries(all).take(i as int)),
                data@.len() == 32 * i,
            decreases items.len() - i,
        {
            let offset: u64 = data.len() as u64;
            let mut record = items[i].1.to_bytes();
            let key = slice_to_vec(items[i].0.as_slice());
            let ghost pairs_before = pairs_view(pairs@);
            pairs.push((key, offset));
            data.append(&mut record);
            proof {
                assert(item_entries(all).take(i + 1).drop_last() =~= item_entries(all).take(
                    i as int,
                ));
                assert(pairs_view(pairs@) =~= pairs_before.push((all[i as int].0, offset)));
                assert(pairs_view(pairs@) =~= spec_segment(all).pairs.take(i + 1));
            }
            i = i + 1;
        }
        proof {
            assert(spec_segment(all).pairs.take(i as int) =~= spec_segment(all).pairs);
            assert(item_entries(all).take(i as int) =~= item_entries(all));
            if keys_ascending(spec_segment(all).pairs) {
                assert forall|a: int, b: int| 0 <= a < b < all.len() implies bytes_lt(
                    (#[trigger] all[a]).0,
                    (#[trigger] all[b]).0,
                ) by {
                    assert(bytes_lt(spec_segment(all).pairs[a].0, spec_segment(all).pairs[b].0));
                }
            }
            if items_ascending(all) {
                assert forall|a: int, b: int| 0 <= a < b < all.len() implies bytes_lt(
                    (#[trigger] spec_segment(all).pairs[a]).0,
                    (#[trigger] spec_segment(all).pairs[b]).0,
                ) by {
                    assert(bytes_lt(all[a].0, all[b].0));
                }
            }
        }
        Segment::load(pairs, data)
    }

    /// The entry stored at `offset`, or `None` where fewer than `ENTRY_SIZE`
    /// bytes follow the offset or the bytes are no entry.
    pub fn get_entry(&self, offset: u64) -> (entry: Option<IndexEntry>)
        ensures
            entry == spec_get_entry(self@.data, offset),
            self@.wf(),
    {
        proof {
            use_type_invariant(self);
        }
        let len = self.data.len();
        if offset > len as u64 {
            return None;
        }
        let start: usize = offset as usize;
        if len - start < ENTRY_SIZE {
            return None;
        }
        let record = slice_subrange(self.data.as_slice(), start, start + ENTRY_SIZE);
        match IndexEntry::from_bytes(record) {
            Ok(entry) => Some(entry),
            Err(_) => None,
        }
    }

    /// The pairs of the key map, in the order of the keys.
    pub fn pairs(&self) -> (pairs: Vec<(Vec<u8>, u64)>)
        ensures
            pairs_view(pairs@) == self@.pairs,
            self@.wf(),
    {
        proof {
            use_type_invariant(self);
        }
        map_all_pairs(self)
    }

    /// The pairs whose keys pass the walk that `matcher` steers, in the
    /// order of the keys.
    pub fn search(&self, matcher: &RegexMatcher) -> (hits: Vec<(Vec<u8>, u64)>)
        ensures
            pairs_view(hits@) == self@.pairs.filter(
                |pair: (Seq<u8>, u64)| stream_accepts(matcher.pattern(), pair.0),
            ),
            self@.wf(),
    {
        proof {
            use_type_invariant(self);
        }
        map_matching_pairs(self, matcher)
    }

    /// The records of the segment.
    pub fn data(&self) -> (data: &Vec<u8>)
        ensures
            data@ == self@.data,
    {
        &self.data
    }

    /// The key map in the bytes in which it is stored.
    pub fn map_bytes(&self) -> (bytes: Vec<u8>)
        ensures
            bytes@ == fst_image(self@.pairs),
    {
        map_image(self)
    }
}

/// Shared segments, each seen as what it holds.
pub open spec fn segments_view(segments: Seq<Arc<Segment>>) -> Seq<SegmentView> {
    Seq::new(segments.len(), |i: int| (*segments[i])@)
}

/// Entries whose keys ascend give items whose keys ascend, and the other
/// way round.
pub proof fn lemma_entries_items_ascending(entries: Seq<(Seq<char>, IndexEntry)>)
    ensures
        items_ascending(keyed_items(entries)) <==> entries_ascending(entries),
{
    let items = keyed_items(entries);
    let view = entries;
    if items_ascending(items) {
        assert forall|i: int, j: int| 0 <= i < j < view.len() implies key_lt(
            (#[trigger] view[i]).0,
            (#[trigger] view[j]).0,
        ) by {
            assert(bytes_lt(items[i].0, items[j].0));
        }
    }
    if entries_ascending(view) {
        assert forall|i: int, j: int| 0 <= i < j < items.len() implies bytes_lt(
            (#[trigger] items[i]).0,
            (#[trigger] items[j]).0,
        ) by {
            assert(key_lt(view[i].0, view[j].0));
        }
    }
}

/// Another handle to a shared segment.
///
/// Trusted: calls `Arc::clone` of std, which gives a pointer to the same
/// value.
#[verifier::external_body]
fn share(segment: &Arc<Segment>) -> (shared: Arc<Segment>)
    ensures
        shared == *segment,
{
    Arc::clone(segment)
}

/// The segments that an index has committed, oldest first.
pub struct SegmentedIndex {
    segments: Vec<Arc<Segment>>,
}

impl View for SegmentedIndex {
    type V = Seq<SegmentView>;

    closed spec fn view(&self) -> Seq<SegmentView> {
        segments_view(self.segments@)
    }
}

impl SegmentedIndex {
    /// Opens an index that has no segment loaded yet, and reads the text
    /// of the last-operation marker if there is one. A marker that is
    /// missing or is no decimal number gives `None`.
    pub fn open(last_op: Option<&str>) -> (opened: (SegmentedIndex, Option<u64>))
        ensures
            opened.0@ == Seq::<SegmentView>::empty(),
            opened.1 == match last_op {
                Some(text) => spec_parse_last_op(text@),
                None => None,
            },
    {
        let index = SegmentedIndex { segments: Vec::new() };
        assert(index@ =~= Seq::<SegmentView>::empty());
        let parsed = match last_op {
            Some(text) => parse_last_op(text),
            None => None,
        };
        (index, parsed)
    }

    /// Appends a loaded segment to the list.
    pub fn load(&mut self, segment: Segment)
        ensures
            final(self)@ == old(self)@.push(segment@),
    {
        let ghost before = self@;
        self.segments.push(Arc::new(segment));
        assert(self@ =~= before.push(segment@));
    }

    /// The segments as they are now, behind handles of their own: what is
    /// loaded later does not show in the snapshot.
    pub fn snapshot(&self) -> (snapshot: Vec<Arc<Segment>>)
        ensures
            segments_view(snapshot@) == self@,
    {
        let mut snapshot: Vec<Arc<Segment>> = Vec::new();
        let mut i: usize = 0;
        while i < self.segments.len()
            invariant
                i <= self.segments@.len(),
                snapshot@ == self.segments@.take(i as int),
            decreases self.segments@.len() - i,
        {
            snapshot.push(share(&self.segments[i]));
            assert(self.segments@.take(i + 1) =~= self.segments@.take(i as int).push(
                self.segments@[i as int],
            ));
            i = i + 1;
        }
        assert(self.segments@.take(i as int) =~= self.segments@);
        snapshot
    }

    /// The segments, oldest first.
    pub fn segments(&self) -> (segments: &Vec<Arc<Segment>>)
        ensures
            segments_view(segments@) == self@,
    {
        &self.segments
    }

    /// The text to store as the last-operation marker for `seq`: the number
    /// in decimal.
    pub fn save_last_op(&self, seq: u64) -> (text: String)
        ensures
            text@ == spec_decimal(seq as nat),
    {
        format_last_op(seq)
    }

    /// Makes the segment that stores `entries` in their order.
    ///
    /// Fails exactly when the keys do not ascend strictly.
    pub fn write_segment(&self, entries: Vec<(String, IndexEntry)>) -> (written: Result<
        Segment,
        SegmentedIndexError,
    >)
        ensures
            written is Ok <==> entries_ascending(entries_view(entries@)),
            written is Ok ==> written->Ok_0@ == spec_segment(keyed_items(entries_view(entries@))),
    {
        let ghost all = keyed_items(entries_view(entries@));
        let mut items: Vec<(Vec<u8>, IndexEntry)> = Vec::new();
        let mut i: usize = 0;
        while i < entries.len()
            invariant
                i <= entries@.len(),
                all == keyed_items(entries_view(entries@)),
                items_view(items@) == all.take(i as int),
            decreases entries@.len() - i,
        {
            let ghost before = items_view(items@);
            let key = entries[i].0.as_str().as_bytes_vec();
            items.push((key, entries[i].1));
            assert(items_view(items@) =~= before.push(all[i as int]));
            assert(all.take(i + 1) =~= all.take(i as int).push(all[i as int]));
            i = i + 1;
        }
        proof {
            assert(all.take(i as int) =~= all);
            lemma_entries_items_ascending(entries_view(entries@));
        }
        Segment::build(&items)
    }
}

} // verus!
