//! The key map of a segment: an `fst::Map` held in memory.
//!
//! The map is an outside type. This file names what a map and a map builder
//! hold, and gives each call into the `fst` crate a contract over those
//! names. Nothing here is proved; everything else is proved from it.

use crate::keys::bytes_lt;
use crate::matcher::RegexMatcher;
use crate::segmented_index::{segments_view, Segment, SegmentView};
use std::sync::Arc;
use vstd::prelude::*;

verus! {

/// `fst::Map`, as a type that is not looked into.
#[verifier::external_type_specification]
#[verifier::external_body]
#[verifier::reject_recursive_types(D)]
pub struct ExFstMap<D>(fst::Map<D>);

/// `fst::MapBuilder`, as a type that is not looked into.
#[verifier::external_type_specification]
#[verifier::external_body]
#[verifier::reject_recursive_types(W)]
pub struct ExFstMapBuilder<W>(fst::MapBuilder<W>);

/// `fst::Error`, as a type that is not looked into.
#[verifier::external_type_specification]
#[verifier::external_body]
pub struct ExFstError(fst::Error);

/// The pairs of key and value that a map holds, in the order of its keys.
pub uninterp spec fn map_pairs(map: fst::Map<Vec<u8>>) -> Seq<(Seq<u8>, u64)>;

/// The pairs that were inserted into a builder, in the order of insertion.
pub uninterp spec fn builder_pairs(builder: fst::MapBuilder<Vec<u8>>) -> Seq<(Seq<u8>, u64)>;

/// The bytes in which the `fst` crate stores a map that holds `pairs`.
pub uninterp spec fn fst_image(pairs: Seq<(Seq<u8>, u64)>) -> Seq<u8>;

/// The text that the `fst` crate gives for an error: what its `Display`
/// writes.
pub uninterp spec fn fst_error_text(error: fst::Error) -> Seq<char>;

/// Whether the walk of a key map that is steered by the DFA of `pattern`
/// reports `key`, given that the map holds `key`.
pub uninterp spec fn stream_accepts(pattern: Seq<char>, key: Seq<u8>) -> bool;

/// Pairs of owned keys and values, seen as pairs of byte sequences and
/// values.
pub open spec fn pairs_view(pairs: Seq<(Vec<u8>, u64)>) -> Seq<(Seq<u8>, u64)> {
    Seq::new(pairs.len(), |i: int| (pairs[i].0@, pairs[i].1))
}

/// The keys of `pairs` stand in strictly ascending byte order.
pub open spec fn keys_ascending(pairs: Seq<(Seq<u8>, u64)>) -> bool {
    forall|i: int, j: int|
        #![trigger pairs[i], pairs[j]]
        0 <= i < j < pairs.len() ==> bytes_lt(pairs[i].0, pairs[j].0)
}

/// `pairs` holds `key` with `value`.
pub open spec fn holds_pair(pairs: Seq<(Seq<u8>, u64)>, key: Seq<u8>, value: u64) -> bool {
    exists|j: int| 0 <= j < pairs.len() && #[trigger] pairs[j] == (key, value)
}

/// One key of a union, with each map that holds it: the number of the map
/// and the value that the map gives the key.
pub type UnionGroup = (Vec<u8>, Vec<(usize, u64)>);

/// `groups` is the union of `maps`, key by key.
///
/// The keys of the groups ascend strictly. A group is never empty, names
/// only maps that hold its key, with the value held, and names no map twice.
/// Every pair of every map is named in the group of its key. The order
/// inside a group is left open.
pub open spec fn is_union_of(groups: Seq<UnionGroup>, maps: Seq<Seq<(Seq<u8>, u64)>>) -> bool {
    &&& forall|g: int| 0 <= g < groups.len() ==> (#[trigger] groups[g]).1@.len() > 0
    &&& forall|g: int, h: int|
        #![trigger groups[g], groups[h]]
        0 <= g < h < groups.len() ==> bytes_lt(groups[g].0@, groups[h].0@)
    &&& forall|g: int, m: int|
        #![trigger groups[g].1@[m]]
        0 <= g < groups.len() && 0 <= m < groups[g].1@.len() ==> {
            &&& groups[g].1@[m].0 < maps.len()
            &&& holds_pair(maps[groups[g].1@[m].0 as int], groups[g].0@, groups[g].1@[m].1)
        }
    &&& forall|g: int, m: int, n: int|
        #![trigger groups[g].1@[m], groups[g].1@[n]]
        0 <= g < groups.len() && 0 <= m < n < groups[g].1@.len() ==> groups[g].1@[m].0
            != groups[g].1@[n].0
    &&& forall|i: int, j: int|
        #![trigger maps[i][j]]
        0 <= i < maps.len() && 0 <= j < maps[i].len() ==> exists|g: int, m: int|
            #![trigger groups[g].1@[m]]
            {
                &&& 0 <= g < groups.len()
                &&& 0 <= m < groups[g].1@.len()
                &&& groups[g].0@ == maps[i][j].0
                &&& groups[g].1@[m].0 == i
                &&& groups[g].1@[m].1 == maps[i][j].1
            }
}

/// The text of an error of the `fst` crate.
///
/// Trusted: formats an `fst::Error` with its `Display`. The crate writes
/// `FST error` for an error of the transducer and `I/O error` for an error
/// of the writer, and nothing else; the contract names the text and says
/// that it is one of the two.
#[verifier::external_body]
pub(crate) fn error_text(error: &fst::Error) -> (text: String)
    ensures
        text@ == fst_error_text(*error),
        text@ == "FST error"@ || text@ == "I/O error"@,
{
    format!("{}", error)
}

/// A builder that holds nothing yet.
///
/// Trusted: calls `fst::MapBuilder::memory`.
#[verifier::external_body]
pub(crate) fn builder_new() -> (builder: fst::MapBuilder<Vec<u8>>)
    ensures
        builder_pairs(builder) == Seq::<(Seq<u8>, u64)>::empty(),
{
    fst::MapBuilder::memory()
}

/// Inserts `key` with `value`.
///
/// Trusted: calls `fst::MapBuilder::insert`. The crate refuses a key that
/// is equal to or less than the key inserted last, before it changes
/// anything; a key greater than the last, or the first key, is taken. The
/// builder writes into memory, so no write can fail.
#[verifier::external_body]
pub(crate) fn builder_insert(
    builder: &mut fst::MapBuilder<Vec<u8>>,
    key: &[u8],
    value: u64,
) -> (inserted: Result<(), fst::Error>)
    ensures
        inserted is Ok <==> (builder_pairs(*old(builder)).len() == 0 || bytes_lt(
            builder_pairs(*old(builder)).last().0,
            key@,
        )),
        inserted is Ok ==> builder_pairs(*final(builder)) == builder_pairs(*old(builder)).push(
            (key@, value),
        ),
        inserted is Err ==> builder_pairs(*final(builder)) == builder_pairs(*old(builder)),
{
    builder.insert(key, value)
}

/// Finishes the builder and gives the map that holds what was inserted.
///
/// Trusted: calls `fst::MapBuilder::into_map`.
#[verifier::external_body]
pub(crate) fn builder_into_map(builder: fst::MapBuilder<Vec<u8>>) -> (map: fst::Map<Vec<u8>>)
    ensures
        map_pairs(map) == builder_pairs(builder),
{
    builder.into_map()
}

/// Every pair of the key map of a segment, in the order of the keys.
///
/// Trusted: calls `fst::Map::stream` and `Stream::into_byte_vec`. The map
/// of a segment is one that `builder_into_map` made.
#[verifier::external_body]
pub(crate) fn map_all_pairs(segment: &Segment) -> (pairs: Vec<(Vec<u8>, u64)>)
    ensures
        pairs_view(pairs@) == map_pairs(segment.map),
{
    segment.map.stream().into_byte_vec()
}

/// The pairs of the key map of a segment whose keys the matcher's
/// automaton lets through, in the order of the keys.
///
/// Trusted: calls `fst::Map::search` with the matcher as the automaton, and
/// `Stream::into_byte_vec`. The walk follows a key as long as the automaton
/// says that a match is still possible, and reports the key if the
/// automaton says that the state after its last byte matches: whether a key
/// of the map is reported depends on the automaton and the key alone. The
/// map of a segment is one that `builder_into_map` made.
#[verifier::external_body]
pub(crate) fn map_matching_pairs(segment: &Segment, matcher: &RegexMatcher) -> (hits: Vec<
    (Vec<u8>, u64),
>)
    ensures
        pairs_view(hits@) == map_pairs(segment.map).filter(
            |pair: (Seq<u8>, u64)| stream_accepts(matcher.pattern(), pair.0),
        ),
{
    fst::IntoStreamer::into_stream(segment.map.search(matcher)).into_byte_vec()
}

/// The bytes of the key map of a segment, as the `fst` crate stores it.
///
/// Trusted: calls `fst::Map::as_fst` and `Fst::as_bytes`, and copies the
/// bytes. The builder that made the map wrote them, and what it writes is
/// a function of the pairs inserted.
#[verifier::external_body]
pub(crate) fn map_image(segment: &Segment) -> (bytes: Vec<u8>)
    ensures
        bytes@ == fst_image(map_pairs(segment.map)),
{
    segment.map.as_fst().as_bytes().to_vec()
}

/// The pairs of each of `segments`.
pub open spec fn segments_pairs(segments: Seq<SegmentView>) -> Seq<Seq<(Seq<u8>, u64)>> {
    Seq::new(segments.len(), |i: int| segments[i].pairs)
}

/// The union of the key maps of `segments`, key by key in the order of the
/// keys.
///
/// Trusted: calls `fst::map::OpBuilder::push` with the stream of each map,
/// then `OpBuilder::union`, and copies out what the union stream yields.
/// The crate merges the streams with a heap that is ordered by key and then
/// by value: each key comes once, with one indexed value for each stream
/// that holds it, and the order of those among themselves is not by stream.
#[verifier::external_body]
pub(crate) fn union_groups(segments: &Vec<Arc<Segment>>) -> (groups: Vec<UnionGroup>)
    ensures
        is_union_of(groups@, segments_pairs(segments_view(segments@))),
{
    let mut builder = fst::map::OpBuilder::new();
    for segment in segments.iter() {
        builder.push(segment.map.stream());
    }
    let mut union = builder.union();
    let mut groups = Vec::new();
    while let Some((key, values)) = fst::Streamer::next(&mut union) {
        groups.push((key.to_vec(), values.iter().map(|v| (v.index, v.value)).collect()));
    }
    groups
}

} // verus!
