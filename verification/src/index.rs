//! The index facade: insert, delete, commit, rollback and search over the
//! memory overlay and the committed segments.
//!
//! The facade is the state of the index and the rules by which it changes.
//! It does no I/O and takes no lock. Its caller owns the directory: it
//! reads what is loaded at `open`, stores what `commit` hands out before it
//! registers the segment with `load`, and runs the merge of a compaction
//! job where it sees fit.

use crate::entry::{FilesystemEntry, IndexEntry};
use crate::matcher::{pattern_compiles, RegexMatcher};
use crate::keys::{bytes_lt, key_bytes, lemma_key_bytes_injective};
use crate::overlay::{entries_ascending, lemma_lookup, spec_lookup, spec_put, Overlay};
use crate::pattern::{search_pattern, spec_pattern};
use crate::search::{
    is_search_answer, lemma_offer_all_concat, results_view, sort_results, spec_all_hits,
    spec_offer_all, spec_overlay_hits, spec_segments_hits, Candidates, Hit, SearchResult,
};
use crate::segmented_index::compactor::CompactorConfig;
use crate::segmented_index::{
    keyed_items, lemma_entries_items_ascending, lemma_entry_for, lemma_segment_entry,
    segments_view, spec_segment, Segment, SegmentView, SegmentedIndex,
};
use std::sync::Arc;
use vstd::prelude::*;
use vstd::string::*;

verus! {

/// Why an operation of the index failed.
#[derive(Debug)]
pub enum IndexError {
    /// The pattern of a query did not compile; the text says why.
    Regex(String),
}

impl IndexError {
    /// The error in words.
    pub fn message(&self) -> (text: String)
        ensures
            self matches IndexError::Regex(reason) ==> text@
                == "failed to compile matching regex: "@ + reason@,
    {
        match self {
            IndexError::Regex(reason) => String::from_str(
                "failed to compile matching regex: ",
            ).concat(reason.as_str()),
        }
    }
}

/// The state of an index.
pub struct IndexView {
    /// The committed segments, oldest first.
    pub segments: Seq<SegmentView>,
    /// The pending writes, in the order of their keys.
    pub overlay: Seq<Hit>,
    /// The sequence number that the next operation gets.
    pub next_op_seq: u64,
    /// The number of segments above which compaction starts.
    pub min_merge_count: usize,
}

/// The segment of a commit that has been made and is not registered yet.
pub struct PendingSegment {
    /// The sequence number that names the segment.
    pub seq: u64,
    /// The segment.
    pub segment: Segment,
}

/// What a compaction is to merge, and the sequence number that names what
/// it writes.
pub struct CompactionJob {
    pub seq: u64,
    pub snapshot: Vec<Arc<Segment>>,
}

/// The sequence number after `seq`. The counter wraps at the end of its
/// range.
pub open spec fn spec_next_seq(seq: u64) -> u64 {
    if seq == u64::MAX {
        0
    } else {
        (seq + 1) as u64
    }
}

/// The counter that an index starts with: the greater of the marker of
/// the last commit and the clock, or the clock alone where no marker was
/// read.
pub open spec fn spec_first_seq(last_op: Option<u64>, now_micros: u64) -> u64 {
    match last_op {
        Some(seq) => if seq > now_micros {
            seq
        } else {
            now_micros
        },
        None => now_micros,
    }
}

impl IndexView {
    /// Whether a compaction is due: none is running, and more segments are
    /// loaded than the configuration lets stand.
    pub open spec fn should_compact(self, compactor_busy: bool) -> bool {
        !compactor_busy && self.segments.len() > self.min_merge_count
    }

    /// The state after an operation took a sequence number.
    pub open spec fn advance(self) -> IndexView {
        IndexView { next_op_seq: spec_next_seq(self.next_op_seq), ..self }
    }

    /// The state after `entry` was put under `key`.
    pub open spec fn put(self, key: Seq<char>, entry: IndexEntry) -> IndexView {
        IndexView { overlay: spec_put(self.overlay, key, entry), ..self }
    }

    /// The state after a compaction job was made, if one was due.
    pub open spec fn compact(self, compactor_busy: bool) -> IndexView {
        if self.should_compact(compactor_busy) {
            self.advance()
        } else {
            self
        }
    }

    /// The state after the insertion of `item`.
    pub open spec fn insert(self, item: FilesystemEntry, compactor_busy: bool) -> IndexView {
        self.put(item.path@, IndexEntry::spec_insertion(item, self.next_op_seq)).advance().compact(
            compactor_busy,
        )
    }

    /// The state after the deletion of `key`.
    pub open spec fn delete(self, key: Seq<char>) -> IndexView {
        self.put(key, IndexEntry::spec_tombstone(self.next_op_seq)).advance()
    }

    /// The state after a rollback.
    pub open spec fn rollback(self) -> IndexView {
        IndexView { overlay: Seq::empty(), ..self }
    }

    /// The state after a commit: nothing changes where nothing is pending;
    /// otherwise a sequence number is taken and the overlay is emptied.
    pub open spec fn commit(self) -> IndexView {
        if self.overlay.len() == 0 {
            self
        } else {
            self.rollback().advance()
        }
    }

    /// The segment that a commit makes of the overlay.
    pub open spec fn committed_segment(self) -> SegmentView {
        spec_segment(keyed_items(self.overlay))
    }

    /// The state after `segment` was registered.
    pub open spec fn load(self, segment: SegmentView) -> IndexView {
        IndexView { segments: self.segments.push(segment), ..self }
    }

    /// Every hit of a search for `pattern`, in scan order.
    pub open spec fn hits(self, pattern: Seq<char>) -> Seq<Hit> {
        spec_all_hits(pattern, self.overlay, self.segments)
    }
}

/// A mutation of the overlay.
pub enum Mutation {
    /// The insertion of an item, and whether a compaction was running.
    Insert(FilesystemEntry, bool),
    /// The deletion of a path.
    Delete(Seq<char>),
}

impl IndexView {
    /// The stamp that a mutation writes in this state.
    pub open spec fn stamp(self, mutation: Mutation) -> crate::opstamp::Opstamp {
        match mutation {
            Mutation::Insert(item, _) => IndexEntry::spec_insertion(item, self.next_op_seq).opstamp,
            Mutation::Delete(_) => IndexEntry::spec_tombstone(self.next_op_seq).opstamp,
        }
    }

    /// The state after a mutation.
    pub open spec fn apply(self, mutation: Mutation) -> IndexView {
        match mutation {
            Mutation::Insert(item, compactor_busy) => self.insert(item, compactor_busy),
            Mutation::Delete(key) => self.delete(key),
        }
    }

    /// The state after a run of mutations.
    pub open spec fn apply_all(self, mutations: Seq<Mutation>) -> IndexView
        decreases mutations.len(),
    {
        if mutations.len() == 0 {
            self
        } else {
            self.apply_all(mutations.drop_last()).apply(mutations.last())
        }
    }
}

/// Opstamp monotonicity. Of two mutations in a row the second writes a
/// stamp with the greater sequence number, as long as the counter stays
/// below the tombstone flag.
pub proof fn lemma_opstamps_increase(state: IndexView, first: Mutation, second: Mutation)
    requires
        state.next_op_seq + 2 < 0x8000_0000_0000_0000,
    ensures
        state.stamp(first).spec_sequence() == state.next_op_seq,
        state.next_op_seq < state.apply(first).next_op_seq <= state.next_op_seq + 2,
        state.stamp(first).spec_sequence() < state.apply(first).stamp(second).spec_sequence(),
{
}

/// The counter moves by one or two with each mutation, as long as it does
/// not wrap.
pub proof fn lemma_counter_after(state: IndexView, mutations: Seq<Mutation>)
    requires
        state.next_op_seq + 2 * mutations.len() <= u64::MAX,
    ensures
        state.next_op_seq + mutations.len() <= state.apply_all(mutations).next_op_seq
            <= state.next_op_seq + 2 * mutations.len(),
    decreases mutations.len(),
{
    if mutations.len() > 0 {
        lemma_counter_after(state, mutations.drop_last());
    }
}

/// Opstamp monotonicity along a run of mutations: each mutation but the
/// first writes a stamp with a greater sequence number than the one
/// before it, as long as the counter stays below the tombstone flag.
pub proof fn lemma_opstamps_increase_along(state: IndexView, mutations: Seq<Mutation>, i: int)
    requires
        state.next_op_seq + 2 * mutations.len() < 0x8000_0000_0000_0000,
        0 <= i,
        i + 1 < mutations.len(),
    ensures
        state.apply_all(mutations.take(i)).stamp(mutations[i]).spec_sequence() < state.apply_all(
            mutations.take(i + 1),
        ).stamp(mutations[i + 1]).spec_sequence(),
{
    let before = state.apply_all(mutations.take(i));
    lemma_counter_after(state, mutations.take(i));
    assert(mutations.take(i + 1).drop_last() =~= mutations.take(i));
    assert(mutations.take(i + 1).last() == mutations[i]);
    lemma_opstamps_increase(before, mutations[i], mutations[i + 1]);
}

/// A commit stores the overlay: the segment that it makes gives each key
/// the entry that the overlay had for it, and gives nothing to a key that
/// the overlay did not have.
pub proof fn lemma_commit_stores_overlay(state: IndexView, key: Seq<char>)
    requires
        entries_ascending(state.overlay),
        32 * state.overlay.len() <= u64::MAX,
    ensures
        state.committed_segment().wf(),
        state.committed_segment().entry_for(key_bytes(key)) == spec_lookup(state.overlay, key),
{
    let overlay = state.overlay;
    let items = keyed_items(overlay);
    let segment = state.committed_segment();
    lemma_entries_items_ascending(overlay);
    lemma_lookup(overlay, key);
    assert forall|a: int, b: int| 0 <= a < b < segment.pairs.len() implies bytes_lt(
        (#[trigger] segment.pairs[a]).0,
        (#[trigger] segment.pairs[b]).0,
    ) by {
        assert(bytes_lt(items[a].0, items[b].0));
    }
    if segment.has_key(key_bytes(key)) {
        let j = choose|j: int|
            0 <= j < segment.pairs.len() && (#[trigger] segment.pairs[j]).0 == key_bytes(key);
        lemma_segment_entry(items, j);
        lemma_entry_for(segment, j);
        lemma_key_bytes_injective(overlay[j].0, key);
    } else {
        assert forall|i: int| 0 <= i < overlay.len() implies (#[trigger] overlay[i]).0 != key by {
            assert(segment.pairs[i].0 == key_bytes(overlay[i].0));
        }
    }
}

/// A commit with nothing pending changes nothing, and a commit right after
/// a commit is such a commit.
pub proof fn lemma_commit_idempotent(state: IndexView)
    ensures
        state.overlay.len() == 0 ==> state.commit() == state,
        state.commit().commit() == state.commit(),
{
}

/// Mutations change neither the segments nor the configuration.
pub proof fn lemma_mutations_keep_segments(state: IndexView, mutations: Seq<Mutation>)
    ensures
        state.apply_all(mutations).segments == state.segments,
        state.apply_all(mutations).min_merge_count == state.min_merge_count,
    decreases mutations.len(),
{
    if mutations.len() > 0 {
        lemma_mutations_keep_segments(state, mutations.drop_last());
    }
}

/// Rollback neutrality. After any run of mutations and a rollback, a
/// search has the hits that it had before the mutations, and so the same
/// answers.
pub proof fn lemma_rollback_neutral(
    state: IndexView,
    mutations: Seq<Mutation>,
    pattern: Seq<char>,
    results: Seq<crate::search::SearchResultView>,
)
    requires
        state.overlay.len() == 0,
    ensures
        state.apply_all(mutations).rollback().hits(pattern) == state.hits(pattern),
        is_search_answer(results, state.apply_all(mutations).rollback().hits(pattern))
            <==> is_search_answer(results, state.hits(pattern)),
{
    lemma_mutations_keep_segments(state, mutations);
    assert(state.overlay =~= Seq::<Hit>::empty());
}

/// The index.
pub struct Index {
    base: SegmentedIndex,
    next_op_seq: u64,
    mem_idx: Overlay,
    compactor_config: CompactorConfig,
}

impl View for Index {
    type V = IndexView;

    closed spec fn view(&self) -> IndexView {
        IndexView {
            segments: self.base@,
            overlay: self.mem_idx@,
            next_op_seq: self.next_op_seq,
            min_merge_count: self.compactor_config.min_merge_count,
        }
    }
}

impl Index {
    /// The keys of the overlay ascend strictly.
    pub closed spec fn wf(&self) -> bool {
        self.mem_idx.wf()
    }

    /// Opens an index over the segments that were loaded, with the default
    /// configuration.
    pub fn open(base: SegmentedIndex, last_op: Option<u64>, now_micros: u64) -> (index: Index)
        ensures
            index.wf(),
            index@ == (IndexView {
                segments: base@,
                overlay: Seq::empty(),
                next_op_seq: spec_first_seq(last_op, now_micros),
                min_merge_count: 4,
            }),
    {
        Index::open_with_config(base, last_op, now_micros, CompactorConfig::default())
    }

    /// Opens an index over the segments that were loaded.
    ///
    /// The counter starts at the greater of `last_op`, the marker of the
    /// last commit, and `now_micros`, the clock in microseconds since the
    /// epoch; without a marker it starts at the clock.
    pub fn open_with_config(
        base: SegmentedIndex,
        last_op: Option<u64>,
        now_micros: u64,
        compactor_config: CompactorConfig,
    ) -> (index: Index)
        ensures
            index.wf(),
            index@ == (IndexView {
                segments: base@,
                overlay: Seq::empty(),
                next_op_seq: spec_first_seq(last_op, now_micros),
                min_merge_count: compactor_config.min_merge_count,
            }),
    {
        let next_op_seq = match last_op {
            Some(seq) => if seq > now_micros {
                seq
            } else {
                now_micros
            },
            None => now_micros,
        };
        Index { base, next_op_seq, mem_idx: Overlay::new(), compactor_config }
    }

    /// Takes the next sequence number.
    fn next_op_seq(&mut self) -> (seq: u64)
        requires
            old(self).wf(),
        ensures
            final(self).wf(),
            seq == old(self)@.next_op_seq,
            final(self)@ == old(self)@.advance(),
    {
        let seq = self.next_op_seq;
        self.next_op_seq = if seq == u64::MAX {
            0
        } else {
            seq + 1
        };
        seq
    }

    /// The sequence number that the next operation gets. A commit stores
    /// it as the marker of the last operation.
    pub fn last_op(&self) -> (seq: u64)
        ensures
            seq == self@.next_op_seq,
    {
        self.next_op_seq
    }

    /// Records `item` in the overlay under a fresh insertion stamp, in
    /// place of whatever its path had there.
    ///
    /// Answers a compaction job where one is due: `compactor_busy` tells
    /// whether a compaction is still running.
    pub fn insert(&mut self, item: FilesystemEntry, compactor_busy: bool) -> (job: Option<
        CompactionJob,
    >)
        requires
            old(self).wf(),
        ensures
            final(self).wf(),
            final(self)@ == old(self)@.insert(item, compactor_busy),
            job is Some <==> old(self)@.should_compact(compactor_busy),
            job is Some ==> {
                &&& job->Some_0.seq == spec_next_seq(old(self)@.next_op_seq)
                &&& segments_view(job->Some_0.snapshot@) == old(self)@.segments
            },
    {
        let seq = self.next_op_seq();
        let entry = IndexEntry::insertion(&item, seq);
        self.mem_idx.insert(item.path, entry);
        if self.should_compact(compactor_busy) {
            self.compact()
        } else {
            None
        }
    }

    /// Records the deletion of `item` in the overlay: a tombstone under a
    /// fresh deletion stamp, in place of whatever the path had there.
    pub fn delete(&mut self, item: &str)
        requires
            old(self).wf(),
        ensures
            final(self).wf(),
            final(self)@ == old(self)@.delete(item@),
    {
        let seq = self.next_op_seq();
        self.mem_idx.insert(String::from_str(item), IndexEntry::tombstone(seq));
    }

    /// Makes a segment of the pending writes and empties the overlay.
    ///
    /// With nothing pending, nothing changes and nothing is handed out.
    /// Otherwise a sequence number is taken to name the segment, and the
    /// segment holds the overlay as it was, in the order of the keys. The
    /// segment is not registered: that is what `load` does, once it has
    /// been stored.
    pub fn commit(&mut self) -> (pending: Option<PendingSegment>)
        requires
            old(self).wf(),
        ensures
            final(self).wf(),
            final(self)@ == old(self)@.commit(),
            pending is Some <==> old(self)@.overlay.len() > 0,
            pending is Some ==> {
                &&& pending->Some_0.seq == old(self)@.next_op_seq
                &&& pending->Some_0.segment@ == old(self)@.committed_segment()
            },
    {
        if self.mem_idx.is_empty() {
            return None;
        }
        let seq = self.next_op_seq();
        let entries = self.mem_idx.drain();
        match self.base.write_segment(entries) {
            Ok(segment) => Some(PendingSegment { seq, segment }),
            Err(_) => {
                proof {
                    assert(false);
                }
                None
            },
        }
    }

    /// Registers a segment: from now on searches see it.
    pub fn load(&mut self, segment: Segment)
        requires
            old(self).wf(),
        ensures
            final(self).wf(),
            final(self)@ == old(self)@.load(segment@),
    {
        self.base.load(segment);
    }

    /// Discards the pending writes.
    pub fn rollback(&mut self)
        requires
            old(self).wf(),
        ensures
            final(self).wf(),
            final(self)@ == old(self)@.rollback(),
    {
        self.mem_idx.clear();
    }

    /// Searches the overlay and the segments for `query`.
    ///
    /// Fails exactly when the pattern of the query does not compile, with
    /// the text of the build error. Otherwise the hits of the overlay and of
    /// each segment are resolved by folded path and sequence number, the
    /// tombstones are dropped, and the rest is sorted.
    pub fn search(&self, query: &str) -> (found: Result<Vec<SearchResult>, IndexError>)
        requires
            self.wf(),
        ensures
            found is Ok <==> pattern_compiles(spec_pattern(query@)),
            found is Ok ==> is_search_answer(
                results_view(found->Ok_0@),
                self@.hits(spec_pattern(query@)),
            ),
    {
        let pattern = search_pattern(query);
        match RegexMatcher::compile(pattern.as_str()) {
            Ok(matcher) => Ok(self.search_with(&matcher)),
            Err(text) => Err(IndexError::Regex(text)),
        }
    }

    /// Searches the overlay and the segments with a compiled matcher.
    pub fn search_with(&self, matcher: &RegexMatcher) -> (found: Vec<SearchResult>)
        requires
            self.wf(),
        ensures
            is_search_answer(results_view(found@), self@.hits(matcher.pattern())),
    {
        let ghost pattern = matcher.pattern();
        let ghost overlay_hits = spec_overlay_hits(pattern, self@.overlay);
        let mut table = Candidates::new();
        table.gather_overlay(matcher, self.mem_idx.entries());
        let segments = self.base.segments();
        let ghost all = segments_view(segments@);
        let mut i: usize = 0;
        proof {
            assert(all.take(0) =~= Seq::<SegmentView>::empty());
            assert(overlay_hits + Seq::<Hit>::empty() =~= overlay_hits);
        }
        while i < segments.len()
            invariant
                i <= segments@.len(),
                all == segments_view(segments@),
                pattern == matcher.pattern(),
                table.wf(),
                table@ == spec_offer_all(
                    Seq::empty(),
                    overlay_hits + spec_segments_hits(pattern, all.take(i as int)),
                ),
            decreases segments@.len() - i,
        {
            proof {
                assert(all.take(i + 1).drop_last() =~= all.take(i as int));
                assert(all.take(i + 1).last() == all[i as int]);
                let before = overlay_hits + spec_segments_hits(pattern, all.take(i as int));
                let more = crate::search::spec_segment_hits(pattern, all[i as int]);
                lemma_offer_all_concat(Seq::empty(), before, more);
                assert(before + more =~= overlay_hits + spec_segments_hits(
                    pattern,
                    all.take(i + 1),
                ));
            }
            table.gather_segment(matcher, &segments[i]);
            i = i + 1;
        }
        proof {
            assert(all.take(i as int) =~= all);
        }
        sort_results(table.results())
    }

    /// Makes a compaction job: a snapshot of the segments, and a fresh
    /// sequence number to name what the merge writes. With no segment
    /// loaded there is nothing to merge, and no number is taken.
    fn compact(&mut self) -> (job: Option<CompactionJob>)
        requires
            old(self).wf(),
        ensures
            final(self).wf(),
            job is Some <==> old(self)@.segments.len() > 0,
            job is Some ==> {
                &&& final(self)@ == old(self)@.advance()
                &&& job->Some_0.seq == old(self)@.next_op_seq
                &&& segments_view(job->Some_0.snapshot@) == old(self)@.segments
            },
            job is None ==> final(self)@ == old(self)@,
    {
        let snapshot = self.base.snapshot();
        if snapshot.len() == 0 {
            return None;
        }
        let seq = self.next_op_seq();
        Some(CompactionJob { seq, snapshot })
    }

    /// Tells whether a compaction is due: none is running, and more
    /// segments are loaded than the configuration lets stand.
    pub fn should_compact(&self, compactor_busy: bool) -> (due: bool)
        ensures
            due == self@.should_compact(compactor_busy),
    {
        !compactor_busy && self.base.segments().len() > self.compactor_config.min_merge_count
    }
}

} // verus!
