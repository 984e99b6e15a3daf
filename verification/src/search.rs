//! The search-time merge: from the hits of one query to its results.
//!
//! Hits come in scan order: first those of the overlay, then those of each
//! segment in turn. They are gathered in a table keyed by the case-folded
//! path. A later hit takes the place of an earlier one with the same folded
//! path only if its sequence number is greater. What is left and is no
//! tombstone is sorted into the results.

use crate::common::Kind;
use crate::entry::IndexEntry;
use crate::keys::{
    compare_keys, key_bytes, key_lt, lemma_bytes_lt_transitive, lemma_bytes_lt_trichotomy,
    KeyOrder,
};
use crate::matcher::{pattern_matches, RegexMatcher};
use crate::overlay::entries_view;
use crate::segmented_index::fst_map::{pairs_view, stream_accepts};
use crate::segmented_index::{spec_get_entry, Segment, SegmentView};
use vstd::hash_map::StringHashMap;
use vstd::multiset::Multiset;
use vstd::prelude::*;
use vstd::string::*;
use vstd::utf8::{decode_utf8, valid_utf8};

verus! {

/// A hit: a path that matched, with the entry found for it.
pub type Hit = (Seq<char>, IndexEntry);

/// One result of a search.
#[derive(Debug, Clone, PartialEq, Eq)]
pub struct SearchResult {
    pub path: String,
    pub kind: Kind,
    pub last_modified: u64,
    pub last_accessed: u64,
}

/// A result, with its path as a sequence of characters.
pub struct SearchResultView {
    pub path: Seq<char>,
    pub kind: Kind,
    pub last_modified: u64,
    pub last_accessed: u64,
}

impl View for SearchResult {
    type V = SearchResultView;

    open spec fn view(&self) -> SearchResultView {
        SearchResultView {
            path: self.path@,
            kind: self.kind,
            last_modified: self.last_modified,
            last_accessed: self.last_accessed,
        }
    }
}

/// The case-folded form of a path: what `str::to_lowercase` makes of it.
pub uninterp spec fn lowercase(text: Seq<char>) -> Seq<char>;

/// Results, each seen with its path as a sequence of characters.
pub open spec fn results_view(results: Seq<SearchResult>) -> Seq<SearchResultView> {
    Seq::new(results.len(), |i: int| results[i]@)
}

/// `a` sorts strictly before `b`: it was modified later; or at the same
/// time, and its kind comes first; or those are equal too, and its path
/// comes first in the byte order.
pub open spec fn result_before(a: SearchResultView, b: SearchResultView) -> bool {
    if a.last_modified != b.last_modified {
        a.last_modified > b.last_modified
    } else if a.kind != b.kind {
        a.kind.spec_into() < b.kind.spec_into()
    } else {
        key_lt(a.path, b.path)
    }
}

/// No result comes after one that sorts strictly after it.
pub open spec fn results_sorted(results: Seq<SearchResultView>) -> bool {
    forall|i: int, j: int|
        #![trigger results[i], results[j]]
        0 <= i < j < results.len() ==> !result_before(results[j], results[i])
}

/// The hits that the overlay gives for `pattern`: its pairs whose keys
/// match, in the order of the keys.
pub open spec fn spec_overlay_hits(pattern: Seq<char>, overlay: Seq<Hit>) -> Seq<Hit>
    decreases overlay.len(),
{
    if overlay.len() == 0 {
        Seq::empty()
    } else if pattern_matches(pattern, key_bytes(overlay.last().0)) {
        spec_overlay_hits(pattern, overlay.drop_last()).push(overlay.last())
    } else {
        spec_overlay_hits(pattern, overlay.drop_last())
    }
}

/// The hit that a pair of a segment gives: its key read as UTF-8, with the
/// entry at its offset. A key that is no UTF-8 and an offset that points at
/// no entry give none.
pub open spec fn spec_pair_hit(data: Seq<u8>, pair: (Seq<u8>, u64)) -> Option<Hit> {
    if valid_utf8(pair.0) {
        match spec_get_entry(data, pair.1) {
            Some(entry) => Some((decode_utf8(pair.0), entry)),
            None => None,
        }
    } else {
        None
    }
}

/// The hits that `pairs` give over the records `data`, in order.
pub open spec fn spec_pairs_hits(data: Seq<u8>, pairs: Seq<(Seq<u8>, u64)>) -> Seq<Hit>
    decreases pairs.len(),
{
    if pairs.len() == 0 {
        Seq::empty()
    } else {
        match spec_pair_hit(data, pairs.last()) {
            Some(hit) => spec_pairs_hits(data, pairs.drop_last()).push(hit),
            None => spec_pairs_hits(data, pairs.drop_last()),
        }
    }
}

/// The hits that one segment gives for `pattern`: those of the pairs that
/// the walk of its key map reports.
pub open spec fn spec_segment_hits(pattern: Seq<char>, segment: SegmentView) -> Seq<Hit> {
    spec_pairs_hits(
        segment.data,
        segment.pairs.filter(|pair: (Seq<u8>, u64)| stream_accepts(pattern, pair.0)),
    )
}

/// The hits of all `segments`, segment after segment.
pub open spec fn spec_segments_hits(pattern: Seq<char>, segments: Seq<SegmentView>) -> Seq<Hit>
    decreases segments.len(),
{
    if segments.len() == 0 {
        Seq::empty()
    } else {
        spec_segments_hits(pattern, segments.drop_last()) + spec_segment_hits(
            pattern,
            segments.last(),
        )
    }
}

/// Every hit of a query, in scan order: the overlay first, then the
/// segments.
pub open spec fn spec_all_hits(
    pattern: Seq<char>,
    overlay: Seq<Hit>,
    segments: Seq<SegmentView>,
) -> Seq<Hit> {
    spec_overlay_hits(pattern, overlay) + spec_segments_hits(pattern, segments)
}

/// The first place in `table` whose path folds to `folded`, or the length
/// of the table if there is none.
pub open spec fn spec_position(table: Seq<Hit>, folded: Seq<char>) -> int
    decreases table.len(),
{
    if table.len() == 0 {
        0
    } else if lowercase(table[0].0) == folded {
        0
    } else {
        1 + spec_position(table.drop_first(), folded)
    }
}

/// The table after one more hit: the hit is added if its folded path is
/// new, and takes the place of the one with its folded path if its
/// sequence number is greater; otherwise nothing changes.
pub open spec fn spec_offer(table: Seq<Hit>, hit: Hit) -> Seq<Hit> {
    let at = spec_position(table, lowercase(hit.0));
    if at < table.len() {
        if hit.1.opstamp.spec_sequence() > table[at].1.opstamp.spec_sequence() {
            table.update(at, hit)
        } else {
            table
        }
    } else {
        table.push(hit)
    }
}

/// `table` after all of `hits`, offered in order.
pub open spec fn spec_offer_all(table: Seq<Hit>, hits: Seq<Hit>) -> Seq<Hit>
    decreases hits.len(),
{
    if hits.len() == 0 {
        table
    } else {
        spec_offer(spec_offer_all(table, hits.drop_last()), hits.last())
    }
}

/// The table that `hits` resolve to: what is left when they are offered in
/// order to an empty table.
pub open spec fn spec_resolve(hits: Seq<Hit>) -> Seq<Hit> {
    spec_offer_all(Seq::empty(), hits)
}

/// The result that a hit is shown as.
pub open spec fn spec_result(hit: Hit) -> SearchResultView {
    SearchResultView {
        path: hit.0,
        kind: hit.1.kind,
        last_modified: hit.1.last_modified,
        last_accessed: hit.1.last_accessed,
    }
}

/// The results that a table shows: one for each hit that is no tombstone,
/// in the order of the table.
pub open spec fn spec_visible(table: Seq<Hit>) -> Seq<SearchResultView>
    decreases table.len(),
{
    if table.len() == 0 {
        Seq::empty()
    } else if table.last().1.opstamp.spec_is_deletion() {
        spec_visible(table.drop_last())
    } else {
        spec_visible(table.drop_last()).push(spec_result(table.last()))
    }
}

/// What a search must answer for `hits`: the results are sorted, and they
/// are the visible hits of the resolved table, each as often as there.
pub open spec fn is_search_answer(results: Seq<SearchResultView>, hits: Seq<Hit>) -> bool {
    &&& results_sorted(results)
    &&& results.to_multiset() == spec_visible(spec_resolve(hits)).to_multiset()
}

/// The place that `spec_position` gives is the first with the folded path.
pub proof fn lemma_position(table: Seq<Hit>, folded: Seq<char>)
    ensures
        0 <= spec_position(table, folded) <= table.len(),
        spec_position(table, folded) < table.len() ==> lowercase(
            table[spec_position(table, folded)].0,
        ) == folded,
        forall|i: int|
            0 <= i < spec_position(table, folded) ==> lowercase((#[trigger] table[i]).0)
                != folded,
    decreases table.len(),
{
    if table.len() > 0 && lowercase(table[0].0) != folded {
        let rest = table.drop_first();
        lemma_position(rest, folded);
        assert forall|i: int| 0 <= i < spec_position(table, folded) implies lowercase(
            (#[trigger] table[i]).0,
        ) != folded by {
            if i > 0 {
                assert(table[i] == rest[i - 1]);
            }
        }
    }
}

/// No two places of a table have the same folded path.
pub open spec fn folded_unique(table: Seq<Hit>) -> bool {
    forall|i: int, j: int|
        #![trigger table[i], table[j]]
        0 <= i < j < table.len() ==> lowercase(table[i].0) != lowercase(table[j].0)
}

/// Offering a hit keeps the folded paths of a table apart.
pub proof fn lemma_offer_unique(table: Seq<Hit>, hit: Hit)
    requires
        folded_unique(table),
    ensures
        folded_unique(spec_offer(table, hit)),
{
    let folded = lowercase(hit.0);
    let at = spec_position(table, folded);
    lemma_position(table, folded);
    let after = spec_offer(table, hit);
    assert forall|i: int, j: int| 0 <= i < j < after.len() implies lowercase(
        (#[trigger] after[i]).0,
    ) != lowercase((#[trigger] after[j]).0) by {
        if at < table.len() {
            assert(lowercase(table[i].0) != lowercase(table[j].0));
            assert(lowercase(after[i].0) == lowercase(table[i].0));
            assert(lowercase(after[j].0) == lowercase(table[j].0));
        } else if j < table.len() {
            assert(lowercase(table[i].0) != lowercase(table[j].0));
        } else {
            assert(lowercase(table[i].0) != folded);
        }
    }
}

/// Offering hits keeps the folded paths of a table apart.
pub proof fn lemma_offer_all_unique(table: Seq<Hit>, hits: Seq<Hit>)
    requires
        folded_unique(table),
    ensures
        folded_unique(spec_offer_all(table, hits)),
    decreases hits.len(),
{
    if hits.len() > 0 {
        lemma_offer_all_unique(table, hits.drop_last());
        lemma_offer_unique(spec_offer_all(table, hits.drop_last()), hits.last());
    }
}

/// Offering one run of hits and then another is offering the two runs
/// joined.
pub proof fn lemma_offer_all_concat(table: Seq<Hit>, first: Seq<Hit>, second: Seq<Hit>)
    ensures
        spec_offer_all(table, first + second) == spec_offer_all(
            spec_offer_all(table, first),
            second,
        ),
    decreases second.len(),
{
    if second.len() == 0 {
        assert(first + second =~= first);
    } else {
        lemma_offer_all_concat(table, first, second.drop_last());
        assert((first + second).drop_last() =~= first + second.drop_last());
        assert((first + second).last() == second.last());
    }
}

/// What one offer does to a table: every place keeps its folded path and
/// does not lose in sequence number, holding what it held or the hit; a
/// place that is new holds the hit; and the place of the hit's folded path
/// holds an entry that is at least as late as the hit.
pub proof fn lemma_offer_effect(table: Seq<Hit>, hit: Hit)
    ensures
        spec_offer(table, hit).len() >= table.len(),
        forall|p: int|
            0 <= p < table.len() ==> {
                &&& lowercase((#[trigger] spec_offer(table, hit)[p]).0) == lowercase(table[p].0)
                &&& spec_offer(table, hit)[p].1.opstamp.spec_sequence()
                    >= table[p].1.opstamp.spec_sequence()
                &&& (spec_offer(table, hit)[p] == table[p] || spec_offer(table, hit)[p] == hit)
            },
        forall|p: int|
            table.len() <= p < spec_offer(table, hit).len() ==> (#[trigger] spec_offer(
                table,
                hit,
            )[p]) == hit,
        exists|p: int|
            0 <= p < spec_offer(table, hit).len() && lowercase(
                (#[trigger] spec_offer(table, hit)[p]).0,
            ) == lowercase(hit.0) && spec_offer(table, hit)[p].1.opstamp.spec_sequence()
                >= hit.1.opstamp.spec_sequence(),
{
    let at = spec_position(table, lowercase(hit.0));
    lemma_position(table, lowercase(hit.0));
    let after = spec_offer(table, hit);
    assert(lowercase(after[at].0) == lowercase(hit.0) && after[at].1.opstamp.spec_sequence()
        >= hit.1.opstamp.spec_sequence());
}

/// What a run of offers does to a table. Every place that the table had
/// keeps its folded path, does not lose in sequence number, and holds what
/// it held or one of the hits; every new place holds one of the hits; and
/// for each hit, some place has the folded path of the hit and an entry at
/// least as late as the hit.
pub proof fn lemma_offer_all_effect(table: Seq<Hit>, hits: Seq<Hit>)
    ensures
        spec_offer_all(table, hits).len() >= table.len(),
        forall|p: int|
            0 <= p < table.len() ==> {
                &&& lowercase((#[trigger] spec_offer_all(table, hits)[p]).0) == lowercase(
                    table[p].0,
                )
                &&& spec_offer_all(table, hits)[p].1.opstamp.spec_sequence()
                    >= table[p].1.opstamp.spec_sequence()
                &&& (spec_offer_all(table, hits)[p] == table[p] || exists|j: int|
                    0 <= j < hits.len() && #[trigger] hits[j] == spec_offer_all(table, hits)[p])
            },
        forall|p: int|
            table.len() <= p < spec_offer_all(table, hits).len() ==> exists|j: int|
                0 <= j < hits.len() && #[trigger] hits[j] == (#[trigger] spec_offer_all(
                    table,
                    hits,
                )[p]),
        forall|j: int|
            0 <= j < hits.len() ==> exists|p: int|
                0 <= p < spec_offer_all(table, hits).len() && lowercase(
                    (#[trigger] spec_offer_all(table, hits)[p]).0,
                ) == lowercase((#[trigger] hits[j]).0) && spec_offer_all(
                    table,
                    hits,
                )[p].1.opstamp.spec_sequence() >= hits[j].1.opstamp.spec_sequence(),
    decreases hits.len(),
{
    if hits.len() > 0 {
        let earlier = hits.drop_last();
        let middle = spec_offer_all(table, earlier);
        let after = spec_offer_all(table, hits);
        lemma_offer_all_effect(table, earlier);
        lemma_offer_effect(middle, hits.last());
        assert forall|p: int| 0 <= p < table.len() implies {
            &&& lowercase((#[trigger] after[p]).0) == lowercase(table[p].0)
            &&& after[p].1.opstamp.spec_sequence() >= table[p].1.opstamp.spec_sequence()
            &&& (after[p] == table[p] || exists|j: int|
                0 <= j < hits.len() && #[trigger] hits[j] == after[p])
        } by {
            if after[p] == hits.last() {
                assert(hits[hits.len() - 1] == after[p]);
            } else if middle[p] != table[p] {
                let j = choose|j: int| 0 <= j < earlier.len() && #[trigger] earlier[j] == middle[p];
                assert(hits[j] == after[p]);
            }
        }
        assert forall|p: int| table.len() <= p < after.len() implies exists|j: int|
            0 <= j < hits.len() && #[trigger] hits[j] == (#[trigger] after[p]) by {
            if p < middle.len() && after[p] == middle[p] {
                let j = choose|j: int| 0 <= j < earlier.len() && #[trigger] earlier[j] == middle[p];
                assert(hits[j] == after[p]);
            } else {
                assert(hits[hits.len() - 1] == after[p]);
            }
        }
        assert forall|j: int| 0 <= j < hits.len() implies exists|p: int|
            0 <= p < after.len() && lowercase((#[trigger] after[p]).0) == lowercase(
                (#[trigger] hits[j]).0,
            ) && after[p].1.opstamp.spec_sequence() >= hits[j].1.opstamp.spec_sequence() by {
            if j < earlier.len() {
                assert(earlier[j] == hits[j]);
                let p = choose|p: int|
                    0 <= p < middle.len() && lowercase((#[trigger] middle[p]).0) == lowercase(
                        earlier[j].0,
                    ) && middle[p].1.opstamp.spec_sequence()
                        >= earlier[j].1.opstamp.spec_sequence();
                assert(lowercase(after[p].0) == lowercase(middle[p].0));
            }
        }
    }
}

/// Every result that a table shows is the result of a place of the table
/// that holds no tombstone.
pub proof fn lemma_visible_member(table: Seq<Hit>, r: int)
    requires
        0 <= r < spec_visible(table).len(),
    ensures
        exists|p: int|
            0 <= p < table.len() && !(#[trigger] table[p]).1.opstamp.spec_is_deletion()
                && spec_result(table[p]) == spec_visible(table)[r],
    decreases table.len(),
{
    let rest = table.drop_last();
    if table.last().1.opstamp.spec_is_deletion() || r < spec_visible(rest).len() {
        lemma_visible_member(rest, r);
        let p = choose|p: int|
            0 <= p < rest.len() && !(#[trigger] rest[p]).1.opstamp.spec_is_deletion()
                && spec_result(rest[p]) == spec_visible(rest)[r];
        assert(table[p] == rest[p]);
    } else {
        assert(spec_result(table[table.len() - 1]) == spec_visible(table)[r]);
    }
}

/// Each place of a resolved table holds one of the hits, and no hit with
/// the folded path of the place has a greater sequence number.
pub proof fn lemma_resolve_latest(hits: Seq<Hit>, p: int)
    requires
        0 <= p < spec_resolve(hits).len(),
    ensures
        exists|i: int| 0 <= i < hits.len() && #[trigger] hits[i] == spec_resolve(hits)[p],
        forall|j: int|
            0 <= j < hits.len() && lowercase((#[trigger] hits[j]).0) == lowercase(
                spec_resolve(hits)[p].0,
            ) ==> hits[j].1.opstamp.spec_sequence() <= spec_resolve(
                hits,
            )[p].1.opstamp.spec_sequence(),
{
    let table = spec_resolve(hits);
    lemma_offer_all_effect(Seq::empty(), hits);
    lemma_offer_all_unique(Seq::empty(), hits);
    assert forall|j: int|
        0 <= j < hits.len() && lowercase((#[trigger] hits[j]).0) == lowercase(
            table[p].0,
        ) implies hits[j].1.opstamp.spec_sequence() <= table[p].1.opstamp.spec_sequence() by {
        let q = choose|q: int|
            0 <= q < table.len() && lowercase((#[trigger] table[q]).0) == lowercase(hits[j].0)
                && table[q].1.opstamp.spec_sequence() >= hits[j].1.opstamp.spec_sequence();
        if q < p {
            assert(lowercase(table[q].0) != lowercase(table[p].0));
        } else if p < q {
            assert(lowercase(table[p].0) != lowercase(table[q].0));
        }
    }
}

/// Latest wins. Each result of a search stands for a hit that is no
/// tombstone and whose sequence number no hit with the same folded path
/// exceeds.
pub proof fn lemma_search_latest_wins(results: Seq<SearchResultView>, hits: Seq<Hit>, r: int)
    requires
        is_search_answer(results, hits),
        0 <= r < results.len(),
    ensures
        exists|i: int|
            {
                &&& 0 <= i < hits.len()
                &&& spec_result(#[trigger] hits[i]) == results[r]
                &&& !hits[i].1.opstamp.spec_is_deletion()
                &&& forall|j: int|
                    0 <= j < hits.len() && lowercase((#[trigger] hits[j]).0) == lowercase(
                        hits[i].0,
                    ) ==> hits[j].1.opstamp.spec_sequence() <= hits[i].1.opstamp.spec_sequence()
            },
{
    let table = spec_resolve(hits);
    let visible = spec_visible(table);
    let shown = results[r];
    assert(visible.contains(shown)) by {
        results.to_multiset_ensures();
        visible.to_multiset_ensures();
        assert(results.contains(shown));
        assert(results.to_multiset().count(shown) > 0);
        assert(visible.to_multiset().count(shown) > 0);
    }
    let v = choose|v: int| 0 <= v < visible.len() && visible[v] == shown;
    lemma_visible_member(table, v);
    let p = choose|p: int|
        0 <= p < table.len() && !(#[trigger] table[p]).1.opstamp.spec_is_deletion()
            && spec_result(table[p]) == visible[v];
    lemma_resolve_latest(hits, p);
    let i = choose|i: int| 0 <= i < hits.len() && #[trigger] hits[i] == table[p];
    assert(spec_result(hits[i]) == results[r]);
}

/// Tombstone semantics. Where a tombstone is later than every other hit
/// with its folded path, no result of the search has that folded path.
pub proof fn lemma_search_tombstone(results: Seq<SearchResultView>, hits: Seq<Hit>, d: int)
    requires
        is_search_answer(results, hits),
        0 <= d < hits.len(),
        hits[d].1.opstamp.spec_is_deletion(),
        forall|j: int|
            0 <= j < hits.len() && j != d && lowercase((#[trigger] hits[j]).0) == lowercase(
                hits[d].0,
            ) ==> hits[j].1.opstamp.spec_sequence() < hits[d].1.opstamp.spec_sequence(),
    ensures
        forall|r: int|
            0 <= r < results.len() ==> lowercase((#[trigger] results[r]).path) != lowercase(
                hits[d].0,
            ),
{
    assert forall|r: int| 0 <= r < results.len() implies lowercase((#[trigger] results[r]).path)
        != lowercase(hits[d].0) by {
        lemma_search_latest_wins(results, hits, r);
        let i = choose|i: int|
            {
                &&& 0 <= i < hits.len()
                &&& spec_result(#[trigger] hits[i]) == results[r]
                &&& !hits[i].1.opstamp.spec_is_deletion()
                &&& forall|j: int|
                    0 <= j < hits.len() && lowercase((#[trigger] hits[j]).0) == lowercase(
                        hits[i].0,
                    ) ==> hits[j].1.opstamp.spec_sequence() <= hits[i].1.opstamp.spec_sequence()
            };
        if lowercase(results[r].path) == lowercase(hits[d].0) {
            assert(lowercase(hits[d].0) == lowercase(hits[i].0));
            assert(hits[d].1.opstamp.spec_sequence() <= hits[i].1.opstamp.spec_sequence());
            assert(i != d);
        }
    }
}

/// One result does not sort both before and after another.
pub proof fn lemma_before_asymmetric(a: SearchResultView, b: SearchResultView)
    requires
        result_before(a, b),
    ensures
        !result_before(b, a),
{
    lemma_bytes_lt_trichotomy(key_bytes(a.path), key_bytes(b.path));
}

/// A result that sorts before `b` sorts before everything that does not
/// sort before `b`.
pub proof fn lemma_before_carries(a: SearchResultView, b: SearchResultView, c: SearchResultView)
    requires
        result_before(a, b),
        !result_before(c, b),
    ensures
        result_before(a, c),
{
    if a.last_modified == b.last_modified && b.last_modified == c.last_modified && a.kind
        == b.kind && b.kind == c.kind {
        lemma_bytes_lt_trichotomy(key_bytes(c.path), key_bytes(b.path));
        if key_bytes(c.path) != key_bytes(b.path) {
            lemma_bytes_lt_transitive(key_bytes(a.path), key_bytes(b.path), key_bytes(c.path));
        }
    }
}

/// No two of `results` have the same path.
pub open spec fn paths_distinct(results: Seq<SearchResultView>) -> bool {
    forall|i: int, j: int|
        #![trigger results[i], results[j]]
        0 <= i < j < results.len() ==> results[i].path != results[j].path
}

/// The results that a table with distinct folded paths shows have distinct
/// paths.
pub proof fn lemma_visible_paths_distinct(table: Seq<Hit>)
    requires
        folded_unique(table),
    ensures
        paths_distinct(spec_visible(table)),
    decreases table.len(),
{
    if table.len() > 0 {
        let rest = table.drop_last();
        assert forall|i: int, j: int| 0 <= i < j < rest.len() implies lowercase(
            (#[trigger] rest[i]).0,
        ) != lowercase((#[trigger] rest[j]).0) by {
            assert(lowercase(table[i].0) != lowercase(table[j].0));
        }
        lemma_visible_paths_distinct(rest);
        let shown = spec_visible(table);
        assert forall|i: int, j: int| 0 <= i < j < shown.len() implies (#[trigger] shown[i]).path
            != (#[trigger] shown[j]).path by {
            if j < spec_visible(rest).len() {
                assert(shown[i] == spec_visible(rest)[i]);
                assert(shown[j] == spec_visible(rest)[j]);
            } else {
                lemma_visible_member(rest, i);
                let p = choose|p: int|
                    0 <= p < rest.len() && !(#[trigger] rest[p]).1.opstamp.spec_is_deletion()
                        && spec_result(rest[p]) == spec_visible(rest)[i];
                assert(lowercase(table[p].0) != lowercase(table[table.len() - 1].0));
            }
        }
    }
}

/// Two sorted sequences that hold the same results, each with a path of
/// its own, are the same sequence.
pub proof fn lemma_sorted_unique(a: Seq<SearchResultView>, b: Seq<SearchResultView>)
    requires
        results_sorted(a),
        results_sorted(b),
        a.to_multiset() == b.to_multiset(),
        paths_distinct(a),
    ensures
        a == b,
    decreases a.len(),
{
    a.to_multiset_ensures();
    b.to_multiset_ensures();
    if a.len() == 0 {
        assert(a =~= b);
    } else {
        let x = a[0];
        let y = b[0];
        assert(a.contains(x));
        assert(b.contains(y));
        assert(a.to_multiset().count(y) > 0);
        assert(b.to_multiset().count(x) > 0);
        let k = choose|k: int| 0 <= k < a.len() && a[k] == y;
        let m = choose|m: int| 0 <= m < b.len() && b[m] == x;
        if x != y {
            assert(k > 0 && m > 0);
            assert(!result_before(a[k], a[0]));
            assert(!result_before(b[m], b[0]));
            lemma_bytes_lt_trichotomy(key_bytes(x.path), key_bytes(y.path));
            crate::keys::lemma_key_bytes_injective(x.path, y.path);
            assert(a[0].path != a[k].path);
        }
        let rest_a = a.drop_first();
        let rest_b = b.drop_first();
        vstd::seq_lib::to_multiset_remove(a, 0);
        vstd::seq_lib::to_multiset_remove(b, 0);
        assert(a.remove(0) =~= rest_a);
        assert(b.remove(0) =~= rest_b);
        assert forall|i: int, j: int| 0 <= i < j < rest_a.len() implies !result_before(
            #[trigger] rest_a[j],
            #[trigger] rest_a[i],
        ) by {
            assert(!result_before(a[j + 1], a[i + 1]));
        }
        assert forall|i: int, j: int| 0 <= i < j < rest_b.len() implies !result_before(
            #[trigger] rest_b[j],
            #[trigger] rest_b[i],
        ) by {
            assert(!result_before(b[j + 1], b[i + 1]));
        }
        assert forall|i: int, j: int| 0 <= i < j < rest_a.len() implies (#[trigger] rest_a[i]).path
            != (#[trigger] rest_a[j]).path by {
            assert(a[i + 1].path != a[j + 1].path);
        }
        lemma_sorted_unique(rest_a, rest_b);
        assert(a =~= seq![x] + rest_a);
        assert(b =~= seq![y] + rest_b);
    }
}

/// A sequence that holds what a sequence with distinct paths holds has
/// distinct paths.
proof fn lemma_paths_distinct_carries(a: Seq<SearchResultView>, b: Seq<SearchResultView>)
    requires
        a.to_multiset() == b.to_multiset(),
        paths_distinct(b),
    ensures
        paths_distinct(a),
{
    a.to_multiset_ensures();
    b.to_multiset_ensures();
    assert(b.no_duplicates()) by {
        assert forall|i: int, j: int| 0 <= i < b.len() && 0 <= j < b.len() && i != j implies b[i]
            != b[j] by {
            if i < j {
                assert(b[i].path != b[j].path);
            } else {
                assert(b[j].path != b[i].path);
            }
        }
    }
    b.lemma_multiset_has_no_duplicates();
    a.lemma_multiset_has_no_duplicates_conv();
    assert forall|i: int, j: int| 0 <= i < j < a.len() implies (#[trigger] a[i]).path != (
    #[trigger] a[j]).path by {
        assert(a.contains(a[i]));
        assert(a.contains(a[j]));
        assert(b.to_multiset().count(a[i]) > 0);
        assert(b.to_multiset().count(a[j]) > 0);
        let p = choose|p: int| 0 <= p < b.len() && b[p] == a[i];
        let q = choose|q: int| 0 <= q < b.len() && b[q] == a[j];
        assert(a[i] != a[j]);
        if p < q {
            assert(b[p].path != b[q].path);
        } else if q < p {
            assert(b[q].path != b[p].path);
        }
    }
}

/// A search has one answer: two sequences that both answer for the same
/// hits are the same sequence.
pub proof fn lemma_search_answer_unique(
    first: Seq<SearchResultView>,
    second: Seq<SearchResultView>,
    hits: Seq<Hit>,
)
    requires
        is_search_answer(first, hits),
        is_search_answer(second, hits),
    ensures
        first == second,
{
    lemma_offer_all_unique(Seq::empty(), hits);
    lemma_visible_paths_distinct(spec_resolve(hits));
    lemma_paths_distinct_carries(first, spec_visible(spec_resolve(hits)));
    lemma_sorted_unique(first, second);
}

/// Folds the case of a path.
///
/// Trusted: calls `str::to_lowercase` of std, whose result is a function of
/// the text alone; the contract names it.
#[verifier::external_body]
fn to_lowercase(text: &str) -> (folded: String)
    ensures
        folded@ == lowercase(text@),
{
    text.to_lowercase()
}

/// Reads bytes as a UTF-8 string.
///
/// Trusted: calls `String::from_utf8` of std on a copy of the bytes. It
/// fails exactly on bytes that are not valid UTF-8 and otherwise gives the
/// string that the bytes encode.
#[verifier::external_body]
fn string_from_utf8(bytes: &[u8]) -> (text: Option<String>)
    ensures
        text is Some <==> valid_utf8(bytes@),
        text is Some ==> text->Some_0@ == decode_utf8(bytes@),
{
    String::from_utf8(bytes.to_vec()).ok()
}

impl SearchResult {
    /// Tells whether this result sorts strictly before `other`.
    pub fn precedes(&self, other: &SearchResult) -> (before: bool)
        ensures
            before == result_before(self@, other@),
    {
        if self.last_modified != other.last_modified {
            self.last_modified > other.last_modified
        } else if self.kind != other.kind {
            self.kind.into() < other.kind.into()
        } else {
            match compare_keys(self.path.as_str(), other.path.as_str()) {
                KeyOrder::Before => true,
                _ => false,
            }
        }
    }
}

/// The first place of `sorted` that `result` sorts strictly before.
fn insertion_point(sorted: &Vec<SearchResult>, result: &SearchResult) -> (at: usize)
    requires
        results_sorted(results_view(sorted@)),
    ensures
        at <= sorted@.len(),
        forall|i: int|
            0 <= i < at ==> !result_before(result@, (#[trigger] results_view(sorted@)[i])),
        forall|i: int|
            at <= i < sorted@.len() ==> result_before(
                result@,
                (#[trigger] results_view(sorted@)[i]),
            ),
{
    let ghost all = results_view(sorted@);
    let mut low: usize = 0;
    let mut high: usize = sorted.len();
    while low < high
        invariant
            all == results_view(sorted@),
            results_sorted(all),
            low <= high <= all.len(),
            forall|i: int| 0 <= i < low ==> !result_before(result@, #[trigger] all[i]),
            forall|i: int| high <= i < all.len() ==> result_before(result@, #[trigger] all[i]),
        decreases high - low,
    {
        let mid = low + (high - low) / 2;
        assert(all[mid as int] == sorted@[mid as int]@);
        if result.precedes(&sorted[mid]) {
            proof {
                assert forall|i: int| mid <= i < all.len() implies result_before(
                    result@,
                    #[trigger] all[i],
                ) by {
                    if i > mid {
                        assert(!result_before(all[i], all[mid as int]));
                        lemma_before_carries(result@, all[mid as int], all[i]);
                    }
                }
            }
            high = mid;
        } else {
            proof {
                assert forall|i: int| 0 <= i < mid + 1 implies !result_before(
                    result@,
                    #[trigger] all[i],
                ) by {
                    if i < mid && result_before(result@, all[i]) {
                        assert(!result_before(all[mid as int], all[i]));
                        lemma_before_carries(result@, all[i], all[mid as int]);
                    }
                }
            }
            low = mid + 1;
        }
    }
    low
}

/// An empty sequence holds nothing.
proof fn lemma_empty_to_multiset<A>()
    ensures
        Seq::<A>::empty().to_multiset() == Multiset::<A>::empty(),
{
    let empty = Seq::<A>::empty();
    empty.to_multiset_ensures();
    assert forall|a: A| empty.to_multiset().count(a) == 0 by {
        assert(!empty.contains(a));
    }
    assert(empty.to_multiset() =~= Multiset::<A>::empty());
}

/// A sequence with one more element holds what it held, and the element.
proof fn lemma_insert_to_multiset<A>(s: Seq<A>, at: int, a: A)
    requires
        0 <= at <= s.len(),
    ensures
        s.insert(at, a).to_multiset() == s.to_multiset().insert(a),
{
    let t = s.insert(at, a);
    vstd::seq_lib::to_multiset_remove(t, at);
    assert(t.remove(at) =~= s);
    t.to_multiset_ensures();
    assert(t.contains(a)) by {
        assert(t[at] == a);
    }
    assert(t.to_multiset() =~= s.to_multiset().insert(a));
}

/// Sorts results: later modified first, then by kind, then by path.
pub fn sort_results(results: Vec<SearchResult>) -> (sorted: Vec<SearchResult>)
    ensures
        results_sorted(results_view(sorted@)),
        results_view(sorted@).to_multiset() == results_view(results@).to_multiset(),
{
    let ghost all = results_view(results@);
    let mut rest = results;
    let mut sorted: Vec<SearchResult> = Vec::new();
    proof {
        assert(results_view(sorted@) =~= Seq::<SearchResultView>::empty());
        lemma_empty_to_multiset::<SearchResultView>();
        assert(results_view(sorted@).to_multiset().add(all.to_multiset()) =~= all.to_multiset());
    }
    loop
        invariant
            results_sorted(results_view(sorted@)),
            results_view(sorted@).to_multiset().add(results_view(rest@).to_multiset())
                == all.to_multiset(),
        ensures
            results_sorted(results_view(sorted@)),
            results_view(sorted@).to_multiset() == all.to_multiset(),
        decreases rest@.len(),
    {
        let ghost rest_before = results_view(rest@);
        let ghost sorted_before = results_view(sorted@);
        match rest.pop() {
            None => {
                proof {
                    assert(rest_before =~= Seq::<SearchResultView>::empty());
                    lemma_empty_to_multiset::<SearchResultView>();
                    assert(sorted_before.to_multiset().add(rest_before.to_multiset())
                        =~= sorted_before.to_multiset());
                }
                break ;
            },
            Some(result) => {
                let at = insertion_point(&sorted, &result);
                let ghost shown = result@;
                sorted.insert(at, result);
                proof {
                    let after = results_view(sorted@);
                    assert(after =~= sorted_before.insert(at as int, shown));
                    assert(rest_before =~= results_view(rest@).push(shown));
                    vstd::seq_lib::to_multiset_build(results_view(rest@), shown);
                    lemma_insert_to_multiset(sorted_before, at as int, shown);
                    assert(after.to_multiset().add(results_view(rest@).to_multiset())
                        =~= sorted_before.to_multiset().add(rest_before.to_multiset()));
                    assert forall|i: int, j: int| 0 <= i < j < after.len() implies !result_before(
                        #[trigger] after[j],
                        #[trigger] after[i],
                    ) by {
                        if i == at {
                            assert(after[j] == sorted_before[j - 1]);
                            lemma_before_asymmetric(shown, sorted_before[j - 1]);
                        } else if j == at {
                            assert(after[i] == sorted_before[i]);
                        } else {
                            let a = if i < at { i } else { i - 1 };
                            let b = if j < at { j } else { j - 1 };
                            assert(after[i] == sorted_before[a]);
                            assert(after[j] == sorted_before[b]);
                            assert(!result_before(sorted_before[b], sorted_before[a]));
                        }
                    }
                }
            },
        }
    }
    sorted
}

/// The table of candidates of one search.
pub struct Candidates {
    index: StringHashMap<usize>,
    slots: Vec<(String, IndexEntry)>,
}

impl View for Candidates {
    type V = Seq<Hit>;

    closed spec fn view(&self) -> Seq<Hit> {
        entries_view(self.slots@)
    }
}

impl Candidates {
    /// The index knows each slot by its folded path, and nothing else.
    pub closed spec fn wf(&self) -> bool {
        &&& forall|i: int|
            0 <= i < self.slots@.len() ==> {
                &&& self.index@.contains_key(lowercase((#[trigger] self.slots@[i]).0@))
                &&& self.index@[lowercase(self.slots@[i].0@)] == i
            }
        &&& forall|folded: Seq<char>| #[trigger]
            self.index@.contains_key(folded) ==> {
                &&& self.index@[folded] < self.slots@.len()
                &&& lowercase(self.slots@[self.index@[folded] as int].0@) == folded
            }
    }

    /// A table without candidates.
    pub fn new() -> (table: Candidates)
        ensures
            table.wf(),
            table@ == Seq::<Hit>::empty(),
    {
        let table = Candidates { index: StringHashMap::new(), slots: Vec::new() };
        assert(table@ =~= Seq::<Hit>::empty());
        table
    }

    /// Offers one hit to the table.
    pub fn offer(&mut self, path: String, entry: IndexEntry)
        requires
            old(self).wf(),
        ensures
            final(self).wf(),
            final(self)@ == spec_offer(old(self)@, (path@, entry)),
    {
        let folded = to_lowercase(path.as_str());
        let ghost before = self@;
        let ghost key = folded@;
        proof {
            lemma_position(before, key);
        }
        let found: Option<usize> = match self.index.get(folded.as_str()) {
            Some(at) => Some(*at),
            None => None,
        };
        match found {
            Some(at) => {
                proof {
                    let place = spec_position(before, key);
                    if place < before.len() {
                        assert(lowercase(self.slots@[place].0@) == key);
                    } else {
                        assert(lowercase(self.slots@[at as int].0@) == key);
                        assert(lowercase(before[at as int].0) == key);
                    }
                    assert(place == at);
                }
                if entry.opstamp.sequence() > self.slots[at].1.opstamp.sequence() {
                    self.slots.set(at, (path, entry));
                    proof {
                        assert(self@ =~= before.update(at as int, (path@, entry)));
                    }
                }
            },
            None => {
                let at = self.slots.len();
                proof {
                    let place = spec_position(before, key);
                    if place < before.len() {
                        assert(lowercase(self.slots@[place].0@) == key);
                    }
                    assert(place == before.len());
                }
                self.index.insert(folded, at);
                self.slots.push((path, entry));
                proof {
                    assert(self@ =~= before.push((path@, entry)));
                }
            },
        }
    }

    /// The results that the table shows, in the order of the table.
    pub fn results(&self) -> (results: Vec<SearchResult>)
        ensures
            results_view(results@) == spec_visible(self@),
    {
        let ghost all = self@;
        let mut results: Vec<SearchResult> = Vec::new();
        let mut i: usize = 0;
        proof {
            assert(results_view(results@) =~= Seq::<SearchResultView>::empty());
        }
        while i < self.slots.len()
            invariant
                i <= self.slots@.len(),
                all == entries_view(self.slots@),
                results_view(results@) == spec_visible(all.take(i as int)),
            decreases self.slots@.len() - i,
        {
            let ghost shown_before = results_view(results@);
            let entry = self.slots[i].1;
            proof {
                assert(all.take(i + 1).drop_last() =~= all.take(i as int));
                assert(all.take(i + 1).last() == all[i as int]);
            }
            if !entry.opstamp.is_deletion() {
                let result = SearchResult {
                    path: self.slots[i].0.clone(),
                    kind: entry.kind,
                    last_modified: entry.last_modified,
                    last_accessed: entry.last_accessed,
                };
                results.push(result);
                proof {
                    assert(results_view(results@) =~= shown_before.push(
                        spec_result(all[i as int]),
                    ));
                }
            }
            i = i + 1;
        }
        proof {
            assert(all.take(i as int) =~= all);
        }
        results
    }

    /// Offers the hits of the overlay, in the order of the keys.
    pub fn gather_overlay(&mut self, matcher: &RegexMatcher, overlay: &Vec<(String, IndexEntry)>)
        requires
            old(self).wf(),
        ensures
            final(self).wf(),
            final(self)@ == spec_offer_all(
                old(self)@,
                spec_overlay_hits(matcher.pattern(), entries_view(overlay@)),
            ),
    {
        let ghost start = self@;
        let ghost all = entries_view(overlay@);
        let ghost pattern = matcher.pattern();
        let mut i: usize = 0;
        while i < overlay.len()
            invariant
                i <= overlay@.len(),
                all == entries_view(overlay@),
                pattern == matcher.pattern(),
                self.wf(),
                self@ == spec_offer_all(start, spec_overlay_hits(pattern, all.take(i as int))),
            decreases overlay@.len() - i,
        {
            proof {
                assert(all.take(i + 1).drop_last() =~= all.take(i as int));
                assert(all.take(i + 1).last() == all[i as int]);
            }
            if matcher.is_match(overlay[i].0.as_str()) {
                let ghost hits = spec_overlay_hits(pattern, all.take(i as int));
                proof {
                    assert(hits.push(all[i as int]).drop_last() =~= hits);
                }
                self.offer(overlay[i].0.clone(), overlay[i].1);
            }
            i = i + 1;
        }
        proof {
            assert(all.take(i as int) =~= all);
        }
    }

    /// Offers the hits of one segment, in the order of its keys.
    pub fn gather_segment(&mut self, matcher: &RegexMatcher, segment: &Segment)
        requires
            old(self).wf(),
        ensures
            final(self).wf(),
            final(self)@ == spec_offer_all(
                old(self)@,
                spec_segment_hits(matcher.pattern(), segment@),
            ),
    {
        let ghost start = self@;
        let found = segment.search(matcher);
        let ghost pairs = pairs_view(found@);
        let ghost data = segment@.data;
        let mut i: usize = 0;
        while i < found.len()
            invariant
                i <= found@.len(),
                pairs == pairs_view(found@),
                data == segment@.data,
                self.wf(),
                self@ == spec_offer_all(start, spec_pairs_hits(data, pairs.take(i as int))),
            decreases found@.len() - i,
        {
            proof {
                assert(pairs.take(i + 1).drop_last() =~= pairs.take(i as int));
                assert(pairs.take(i + 1).last() == pairs[i as int]);
            }
            let ghost hits = spec_pairs_hits(data, pairs.take(i as int));
            match segment.get_entry(found[i].1) {
                Some(entry) => {
                    match string_from_utf8(found[i].0.as_slice()) {
                        Some(path) => {
                            proof {
                                assert(hits.push((path@, entry)).drop_last() =~= hits);
                            }
                            self.offer(path, entry);
                        },
                        None => {},
                    }
                },
                None => {},
            }
            i = i + 1;
        }
        proof {
            assert(pairs.take(i as int) =~= pairs);
        }
    }
}

} // verus!
