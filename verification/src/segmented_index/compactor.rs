//! Compaction: the policy knobs, and the merge of a snapshot of segments
//! into one segment.

use crate::entry::IndexEntry;
use crate::keys::{bytes_lt, lemma_bytes_lt_irreflexive};
use crate::segmented_index::fst_map::{
    holds_pair, is_union_of, segments_pairs, union_groups, UnionGroup,
};
use crate::segmented_index::{
    items_ascending, items_view, lemma_entry_for, lemma_segment_entry, segments_view,
    spec_segment, Segment, SegmentView,
};
use std::sync::Arc;
use vstd::prelude::*;
use vstd::slice::slice_to_vec;

verus! {

/// When to compact.
///
/// Only `min_merge_count` is looked at so far: compaction starts once more
/// than that many segments are loaded. The other knobs are kept for later
/// policies.
pub struct CompactorConfig {
    pub min_merge_count: usize,
    pub memory_threshold: usize,
    pub deletion_threshold: usize,
}

/// Builds a `CompactorConfig`, knob by knob.
pub struct CompactorConfigBuilder {
    min_merge_count: usize,
    memory_threshold: usize,
    deletion_threshold: usize,
}

impl CompactorConfig {
    /// The configuration with every knob at its default: merge once more
    /// than 4 segments are loaded, 100 MiB of memory, 1000 deletions.
    pub fn default() -> (config: CompactorConfig)
        ensures
            config.min_merge_count == 4,
            config.memory_threshold == 104857600,
            config.deletion_threshold == 1000,
    {
        CompactorConfigBuilder::default().build()
    }
}

impl CompactorConfigBuilder {
    /// What `build` would give now.
    pub closed spec fn spec_build(self) -> CompactorConfig {
        CompactorConfig {
            min_merge_count: self.min_merge_count,
            memory_threshold: self.memory_threshold,
            deletion_threshold: self.deletion_threshold,
        }
    }

    /// A builder with every knob at its default: merge once more than 4
    /// segments are loaded, 100 MiB of memory, 1000 deletions.
    pub fn default() -> (builder: CompactorConfigBuilder)
        ensures
            builder.spec_build().min_merge_count == 4,
            builder.spec_build().memory_threshold == 104857600,
            builder.spec_build().deletion_threshold == 1000,
    {
        CompactorConfigBuilder {
            min_merge_count: 4,
            memory_threshold: 104857600,
            deletion_threshold: 1000,
        }
    }

    /// A builder with every knob at its default.
    pub fn new() -> (builder: CompactorConfigBuilder)
        ensures
            builder.spec_build().min_merge_count == 4,
            builder.spec_build().memory_threshold == 104857600,
            builder.spec_build().deletion_threshold == 1000,
    {
        CompactorConfigBuilder::default()
    }

    /// Sets the number of segments above which compaction starts.
    pub fn min_merge_count(self, min_merge_count: usize) -> (builder: CompactorConfigBuilder)
        ensures
            builder.spec_build().min_merge_count == min_merge_count,
            builder.spec_build().memory_threshold
                == self.spec_build().memory_threshold,
            builder.spec_build().deletion_threshold
                == self.spec_build().deletion_threshold,
    {
        CompactorConfigBuilder {
            min_merge_count,
            memory_threshold: self.memory_threshold,
            deletion_threshold: self.deletion_threshold,
        }
    }

    /// Sets the bound on memory use, in bytes.
    pub fn memory_threshold(self, memory_threshold: usize) -> (builder: CompactorConfigBuilder)
        ensures
            builder.spec_build().min_merge_count == self.spec_build().min_merge_count,
            builder.spec_build().memory_threshold == memory_threshold,
            builder.spec_build().deletion_threshold
                == self.spec_build().deletion_threshold,
    {
        CompactorConfigBuilder {
            min_merge_count: self.min_merge_count,
            memory_threshold,
            deletion_threshold: self.deletion_threshold,
        }
    }

    /// Sets the number of deletions that calls for a compaction.
    pub fn deletion_threshold(self, deletion_threshold: usize) -> (builder:
        CompactorConfigBuilder)
        ensures
            builder.spec_build().min_merge_count == self.spec_build().min_merge_count,
            builder.spec_build().memory_threshold
                == self.spec_build().memory_threshold,
            builder.spec_build().deletion_threshold == deletion_threshold,
    {
        CompactorConfigBuilder {
            min_merge_count: self.min_merge_count,
            memory_threshold: self.memory_threshold,
            deletion_threshold,
        }
    }

    /// The configuration with the knobs as they were set.
    pub fn build(self) -> (config: CompactorConfig)
        ensures
            config == self.spec_build(),
    {
        CompactorConfig {
            min_merge_count: self.min_merge_count,
            memory_threshold: self.memory_threshold,
            deletion_threshold: self.deletion_threshold,
        }
    }
}

/// A candidate for a key: the number of the segment that gives it, and the
/// entry given.
pub type Candidate = (int, IndexEntry);

/// Candidate `a` is kept over candidate `b`: its sequence number is
/// greater, or the two are equal and `a` comes from the earlier segment.
pub open spec fn outranks(a: Candidate, b: Candidate) -> bool {
    a.1.opstamp.spec_sequence() > b.1.opstamp.spec_sequence() || (a.1.opstamp.spec_sequence()
        == b.1.opstamp.spec_sequence() && a.0 <= b.0)
}

/// The candidate that a merge keeps for `key`: among the entries that the
/// segments of `snapshot` give for the key, the one with the greatest
/// sequence number, and of several such the one of the earliest segment.
pub open spec fn spec_winner(snapshot: Seq<SegmentView>, key: Seq<u8>) -> Option<Candidate>
    decreases snapshot.len(),
{
    if snapshot.len() == 0 {
        None
    } else {
        let earlier = spec_winner(snapshot.drop_last(), key);
        match snapshot.last().entry_for(key) {
            None => earlier,
            Some(entry) => match earlier {
                None => Some((snapshot.len() - 1, entry)),
                Some(best) => if entry.opstamp.spec_sequence() > best.1.opstamp.spec_sequence() {
                    Some((snapshot.len() - 1, entry))
                } else {
                    earlier
                },
            },
        }
    }
}

/// The entry that a merge of `snapshot` stores for `key`: the entry of the
/// winner, unless there is none or it is a tombstone.
pub open spec fn spec_merged_entry(snapshot: Seq<SegmentView>, key: Seq<u8>) -> Option<
    IndexEntry,
> {
    match spec_winner(snapshot, key) {
        Some(winner) => if winner.1.opstamp.spec_is_deletion() {
            None
        } else {
            Some(winner.1)
        },
        None => None,
    }
}

/// `items` is what a merge of `snapshot` stores: the keys ascend strictly,
/// each item is the merged entry of its key, and every key that has a
/// merged entry has an item.
pub open spec fn is_merge_of(
    items: Seq<(Seq<u8>, IndexEntry)>,
    snapshot: Seq<SegmentView>,
) -> bool {
    &&& items_ascending(items)
    &&& forall|i: int|
        0 <= i < items.len() ==> spec_merged_entry(snapshot, (#[trigger] items[i]).0) == Some(
            items[i].1,
        )
    &&& forall|key: Seq<u8>|
        (#[trigger] spec_merged_entry(snapshot, key)) is Some ==> exists|i: int|
            0 <= i < items.len() && (#[trigger] items[i]).0 == key
}

/// The winner is one of the candidates; and where there is no winner, no
/// segment gives an entry.
pub proof fn lemma_winner_sound(snapshot: Seq<SegmentView>, key: Seq<u8>)
    ensures
        match spec_winner(snapshot, key) {
            Some(winner) => 0 <= winner.0 < snapshot.len() && snapshot[winner.0].entry_for(key)
                == Some(winner.1),
            None => forall|j: int|
                0 <= j < snapshot.len() ==> (#[trigger] snapshot[j]).entry_for(key) is None,
        },
    decreases snapshot.len(),
{
    if snapshot.len() > 0 {
        let rest = snapshot.drop_last();
        lemma_winner_sound(rest, key);
        if spec_winner(snapshot, key) is None {
            assert forall|j: int| 0 <= j < snapshot.len() implies (
            #[trigger] snapshot[j]).entry_for(key) is None by {
                if j < rest.len() {
                    assert(rest[j].entry_for(key) is None);
                }
            }
        } else {
            let winner = spec_winner(snapshot, key)->Some_0;
            if winner.0 < rest.len() {
                assert(rest[winner.0] == snapshot[winner.0]);
            }
        }
    }
}

/// Latest wins in a merge: the winner outranks every candidate. So no
/// segment gives the key an entry with a greater sequence number.
pub proof fn lemma_winner_outranks(snapshot: Seq<SegmentView>, key: Seq<u8>, j: int)
    requires
        0 <= j < snapshot.len(),
        snapshot[j].entry_for(key) is Some,
    ensures
        spec_winner(snapshot, key) is Some,
        outranks(spec_winner(snapshot, key)->Some_0, (j, snapshot[j].entry_for(key)->Some_0)),
        snapshot[j].entry_for(key)->Some_0.opstamp.spec_sequence() <= spec_winner(
            snapshot,
            key,
        )->Some_0.1.opstamp.spec_sequence(),
    decreases snapshot.len(),
{
    let rest = snapshot.drop_last();
    lemma_winner_sound(rest, key);
    if j < snapshot.len() - 1 {
        assert(rest[j] == snapshot[j]);
        lemma_winner_outranks(rest, key, j);
    }
}

/// A candidate that outranks every candidate is the winner.
pub proof fn lemma_winner_is(snapshot: Seq<SegmentView>, key: Seq<u8>, best: Candidate)
    requires
        0 <= best.0 < snapshot.len(),
        snapshot[best.0].entry_for(key) == Some(best.1),
        forall|j: int|
            0 <= j < snapshot.len() && (#[trigger] snapshot[j]).entry_for(key) is Some
                ==> outranks(best, (j, snapshot[j].entry_for(key)->Some_0)),
    ensures
        spec_winner(snapshot, key) == Some(best),
{
    lemma_winner_sound(snapshot, key);
    lemma_winner_outranks(snapshot, key, best.0);
    let winner = spec_winner(snapshot, key)->Some_0;
    assert(snapshot[winner.0].entry_for(key) is Some);
}

/// Compaction preserves what the snapshot says of a key: the merged
/// segment gives the key the entry of the winner, and gives it nothing
/// where the winner is a tombstone or no segment has an entry for the key.
pub proof fn lemma_merged_entry(
    items: Seq<(Seq<u8>, IndexEntry)>,
    snapshot: Seq<SegmentView>,
    key: Seq<u8>,
)
    requires
        is_merge_of(items, snapshot),
        32 * items.len() <= u64::MAX,
    ensures
        spec_segment(items).wf(),
        spec_segment(items).entry_for(key) == spec_merged_entry(snapshot, key),
{
    let merged = spec_segment(items);
    assert forall|a: int, b: int| 0 <= a < b < merged.pairs.len() implies bytes_lt(
        (#[trigger] merged.pairs[a]).0,
        (#[trigger] merged.pairs[b]).0,
    ) by {
        assert(bytes_lt(items[a].0, items[b].0));
    }
    assert(merged.wf());
    if merged.has_key(key) {
        let j = choose|j: int| 0 <= j < merged.pairs.len() && (#[trigger] merged.pairs[j]).0 == key;
        lemma_segment_entry(items, j);
        lemma_entry_for(merged, j);
        assert(items[j].0 == key);
        assert(spec_merged_entry(snapshot, items[j].0) == Some(items[j].1));
    } else {
        if spec_merged_entry(snapshot, key) is Some {
            let i = choose|i: int| 0 <= i < items.len() && (#[trigger] items[i]).0 == key;
            assert(merged.pairs[i].0 == key);
        }
    }
}

/// `items` holds `item`.
pub open spec fn holds_item(
    items: Seq<(Seq<u8>, IndexEntry)>,
    item: (Seq<u8>, IndexEntry),
) -> bool {
    exists|j: int| 0 <= j < items.len() && #[trigger] items[j] == item
}

/// Two runs of items with ascending keys that hold the same items are the
/// same run.
pub proof fn lemma_ascending_unique(
    a: Seq<(Seq<u8>, IndexEntry)>,
    b: Seq<(Seq<u8>, IndexEntry)>,
)
    requires
        items_ascending(a),
        items_ascending(b),
        forall|i: int| 0 <= i < a.len() ==> holds_item(b, #[trigger] a[i]),
        forall|j: int| 0 <= j < b.len() ==> holds_item(a, #[trigger] b[j]),
    ensures
        a == b,
    decreases a.len(),
{
    if a.len() == 0 {
        if b.len() > 0 {
            assert(holds_item(a, b[0]));
        }
        assert(a =~= b);
    } else {
        assert(holds_item(b, a[0]));
        let m = choose|m: int| 0 <= m < b.len() && #[trigger] b[m] == a[0];
        assert(holds_item(a, b[0]));
        let k = choose|k: int| 0 <= k < a.len() && #[trigger] a[k] == b[0];
        lemma_bytes_lt_irreflexive(a[0].0);
        if m > 0 {
            assert(bytes_lt(b[0].0, b[m].0));
            if k > 0 {
                assert(bytes_lt(a[0].0, a[k].0));
                crate::keys::lemma_bytes_lt_trichotomy(a[0].0, b[0].0);
            }
        }
        assert(a[0] == b[0]);
        let rest_a = a.drop_first();
        let rest_b = b.drop_first();
        assert forall|i: int, j: int| 0 <= i < j < rest_a.len() implies bytes_lt(
            (#[trigger] rest_a[i]).0,
            (#[trigger] rest_a[j]).0,
        ) by {
            assert(bytes_lt(a[i + 1].0, a[j + 1].0));
        }
        assert forall|i: int, j: int| 0 <= i < j < rest_b.len() implies bytes_lt(
            (#[trigger] rest_b[i]).0,
            (#[trigger] rest_b[j]).0,
        ) by {
            assert(bytes_lt(b[i + 1].0, b[j + 1].0));
        }
        assert forall|i: int| 0 <= i < rest_a.len() implies holds_item(
            rest_b,
            #[trigger] rest_a[i],
        ) by {
            assert(rest_a[i] == a[i + 1]);
            assert(holds_item(b, a[i + 1]));
            let j = choose|j: int| 0 <= j < b.len() && #[trigger] b[j] == a[i + 1];
            assert(bytes_lt(a[0].0, a[i + 1].0));
            assert(j > 0);
            assert(rest_b[j - 1] == rest_a[i]);
        }
        assert forall|j: int| 0 <= j < rest_b.len() implies holds_item(
            rest_a,
            #[trigger] rest_b[j],
        ) by {
            assert(rest_b[j] == b[j + 1]);
            assert(holds_item(a, b[j + 1]));
            let i = choose|i: int| 0 <= i < a.len() && #[trigger] a[i] == b[j + 1];
            assert(bytes_lt(b[0].0, b[j + 1].0));
            assert(i > 0);
            assert(rest_a[i - 1] == rest_b[j]);
        }
        lemma_ascending_unique(rest_a, rest_b);
        assert(a =~= seq![a[0]] + rest_a);
        assert(b =~= seq![b[0]] + rest_b);
    }
}

/// A snapshot has one merge: two runs of items that both are what a merge
/// of the snapshot stores are the same run.
pub proof fn lemma_merge_unique(
    first: Seq<(Seq<u8>, IndexEntry)>,
    second: Seq<(Seq<u8>, IndexEntry)>,
    snapshot: Seq<SegmentView>,
)
    requires
        is_merge_of(first, snapshot),
        is_merge_of(second, snapshot),
    ensures
        first == second,
{
    assert forall|i: int| 0 <= i < first.len() implies holds_item(second, #[trigger] first[i]) by {
        assert(spec_merged_entry(snapshot, first[i].0) is Some);
        let j = choose|j: int| 0 <= j < second.len() && (#[trigger] second[j]).0 == first[i].0;
        assert(spec_merged_entry(snapshot, second[j].0) == Some(second[j].1));
        assert(second[j] == first[i]);
    }
    assert forall|j: int| 0 <= j < second.len() implies holds_item(first, #[trigger] second[j]) by {
        assert(spec_merged_entry(snapshot, second[j].0) is Some);
        let i = choose|i: int| 0 <= i < first.len() && (#[trigger] first[i]).0 == second[j].0;
        assert(spec_merged_entry(snapshot, first[i].0) == Some(first[i].1));
        assert(first[i] == second[j]);
    }
    lemma_ascending_unique(first, second);
}

/// The entry that the segments give the key of one union group: the
/// winner among the members of the group.
fn pick_latest(
    segments: &Vec<Arc<Segment>>,
    group: &UnionGroup,
    Ghost(groups): Ghost<Seq<UnionGroup>>,
    Ghost(g): Ghost<int>,
) -> (latest: Option<IndexEntry>)
    requires
        is_union_of(groups, segments_pairs(segments_view(segments@))),
        0 <= g < groups.len(),
        *group == groups[g],
    ensures
        match spec_winner(segments_view(segments@), group.0@) {
            Some(winner) => latest == Some(winner.1),
            None => latest is None,
        },
{
    let ghost snapshot = segments_view(segments@);
    let ghost maps = segments_pairs(snapshot);
    let ghost key = group.0@;
    let mut best: Option<(usize, IndexEntry)> = None;
    let mut m: usize = 0;
    while m < group.1.len()
        invariant
            m <= group.1@.len(),
            snapshot == segments_view(segments@),
            maps == segments_pairs(snapshot),
            is_union_of(groups, maps),
            0 <= g < groups.len(),
            *group == groups[g],
            key == group.0@,
            best is None ==> forall|j: int|
                0 <= j < m ==> snapshot[(#[trigger] group.1@[j]).0 as int].entry_for(key) is None,
            best matches Some(kept) ==> {
                &&& kept.0 < snapshot.len()
                &&& snapshot[kept.0 as int].entry_for(key) == Some(kept.1)
                &&& forall|j: int|
                    0 <= j < m && snapshot[(#[trigger] group.1@[j]).0 as int].entry_for(key)
                        is Some ==> outranks(
                        (kept.0 as int, kept.1),
                        (
                            group.1@[j].0 as int,
                            snapshot[group.1@[j].0 as int].entry_for(key)->Some_0,
                        ),
                    )
            },
        decreases group.1@.len() - m,
    {
        let index: usize = group.1[m].0;
        let offset: u64 = group.1[m].1;
        proof {
            assert(groups[g].1@[m as int].0 < maps.len());
            assert(holds_pair(maps[index as int], key, offset));
        }
        let entry = segments[index].get_entry(offset);
        proof {
            let at = choose|at: int|
                0 <= at < maps[index as int].len() && #[trigger] maps[index as int][at] == (
                    key,
                    offset,
                );
            assert(snapshot[index as int].pairs[at] == (key, offset));
            lemma_entry_for(snapshot[index as int], at);
            assert(snapshot[index as int].entry_for(key) == entry);
        }
        match entry {
            Some(found) => {
                let replace = match best {
                    None => true,
                    Some(kept) => found.opstamp.sequence() > kept.1.opstamp.sequence() || (
                    found.opstamp.sequence() == kept.1.opstamp.sequence() && index < kept.0),
                };
                if replace {
                    best = Some((index, found));
                }
            },
            None => {},
        }
        m = m + 1;
    }
    proof {
        assert forall|j: int| 0 <= j < snapshot.len() && (#[trigger] snapshot[j]).entry_for(key)
            is Some implies exists|n: int| 0 <= n < group.1@.len() && (#[trigger] group.1@[n]).0
            == j by {
            let at = choose|at: int|
                0 <= at < snapshot[j].pairs.len() && (#[trigger] snapshot[j].pairs[at]).0 == key;
            assert(maps[j][at] == snapshot[j].pairs[at]);
            let (h, n) = choose|h: int, n: int|
                #![trigger groups[h].1@[n]]
                {
                    &&& 0 <= h < groups.len()
                    &&& 0 <= n < groups[h].1@.len()
                    &&& groups[h].0@ == maps[j][at].0
                    &&& groups[h].1@[n].0 == j
                    &&& groups[h].1@[n].1 == maps[j][at].1
                };
            lemma_bytes_lt_irreflexive(key);
            if h < g {
                assert(bytes_lt(groups[h].0@, groups[g].0@));
            } else if g < h {
                assert(bytes_lt(groups[g].0@, groups[h].0@));
            }
            assert(group.1@[n].0 == j);
        }
        lemma_winner_sound(snapshot, key);
        match best {
            None => {
                if spec_winner(snapshot, key) is Some {
                    let winner = spec_winner(snapshot, key)->Some_0;
                    assert(snapshot[winner.0].entry_for(key) is Some);
                    let n = choose|n: int|
                        0 <= n < group.1@.len() && (#[trigger] group.1@[n]).0 == winner.0;
                    assert(snapshot[group.1@[n].0 as int].entry_for(key) is None);
                }
            },
            Some(kept) => {
                assert forall|j: int| 0 <= j < snapshot.len() && (#[trigger] snapshot[j]).entry_for(
                    key,
                ) is Some implies outranks(
                    (kept.0 as int, kept.1),
                    (j, snapshot[j].entry_for(key)->Some_0),
                ) by {
                    let n = choose|n: int|
                        0 <= n < group.1@.len() && (#[trigger] group.1@[n]).0 == j;
                    assert(snapshot[group.1@[n].0 as int].entry_for(key) is Some);
                }
                lemma_winner_is(snapshot, key, (kept.0 as int, kept.1));
            },
        }
    }
    match best {
        Some(kept) => Some(kept.1),
        None => None,
    }
}

/// Merges a snapshot of segments, key by key: of the entries that the
/// segments give a key, the one with the greatest sequence number is kept;
/// a key whose kept entry is a tombstone is dropped.
pub fn merge_entries(segments: &Vec<Arc<Segment>>) -> (items: Vec<(Vec<u8>, IndexEntry)>)
    ensures
        is_merge_of(items_view(items@), segments_view(segments@)),
{
    let ghost snapshot = segments_view(segments@);
    let ghost maps = segments_pairs(snapshot);
    let groups = union_groups(segments);
    let mut items: Vec<(Vec<u8>, IndexEntry)> = Vec::new();
    let mut g: usize = 0;
    while g < groups.len()
        invariant
            g <= groups@.len(),
            snapshot == segments_view(segments@),
            maps == segments_pairs(snapshot),
            is_union_of(groups@, maps),
            items_ascending(items_view(items@)),
            forall|i: int|
                0 <= i < items@.len() ==> exists|h: int|
                    0 <= h < g && (#[trigger] groups@[h]).0@ == (#[trigger] items_view(
                        items@,
                    )[i]).0,
            forall|i: int|
                0 <= i < items@.len() ==> spec_merged_entry(
                    snapshot,
                    (#[trigger] items_view(items@)[i]).0,
                ) == Some(items_view(items@)[i].1),
            forall|h: int|
                0 <= h < g && spec_merged_entry(snapshot, (#[trigger] groups@[h]).0@) is Some
                    ==> exists|i: int|
                    0 <= i < items@.len() && (#[trigger] items_view(items@)[i]).0 == groups@[h].0@,
        decreases groups@.len() - g,
    {
        let ghost before = items_view(items@);
        let ghost key = groups@[g as int].0@;
        let latest = pick_latest(segments, &groups[g], Ghost(groups@), Ghost(g as int));
        let keep = match latest {
            Some(entry) => !entry.opstamp.is_deletion(),
            None => false,
        };
        if keep {
            let entry = latest.unwrap();
            items.push((slice_to_vec(groups[g].0.as_slice()), entry));
            proof {
                let after = items_view(items@);
                assert(after =~= before.push((key, entry)));
                assert forall|a: int, b: int| 0 <= a < b < after.len() implies bytes_lt(
                    (#[trigger] after[a]).0,
                    (#[trigger] after[b]).0,
                ) by {
                    if b < before.len() {
                        assert(bytes_lt(before[a].0, before[b].0));
                    } else {
                        let h = choose|h: int|
                            0 <= h < g && (#[trigger] groups@[h]).0@ == (#[trigger] before[a]).0;
                        assert(bytes_lt(groups@[h].0@, groups@[g as int].0@));
                    }
                }
                assert forall|i: int| 0 <= i < after.len() implies exists|h: int|
                    0 <= h < g + 1 && (#[trigger] groups@[h]).0@ == (#[trigger] after[i]).0 by {
                    if i < before.len() {
                        let h = choose|h: int|
                            0 <= h < g && (#[trigger] groups@[h]).0@ == (#[trigger] before[i]).0;
                        assert(groups@[h].0@ == after[i].0);
                    } else {
                        assert(groups@[g as int].0@ == after[i].0);
                    }
                }
                assert forall|h: int|
                    0 <= h < g + 1 && spec_merged_entry(snapshot, (#[trigger] groups@[h]).0@)
                        is Some implies exists|i: int|
                    0 <= i < after.len() && (#[trigger] after[i]).0 == groups@[h].0@ by {
                    if h < g {
                        let i = choose|i: int|
                            0 <= i < before.len() && (#[trigger] before[i]).0 == groups@[h].0@;
                        assert(after[i].0 == groups@[h].0@);
                    } else {
                        assert(after[before.len() as int].0 == groups@[h].0@);
                    }
                }
                assert forall|i: int| 0 <= i < after.len() implies spec_merged_entry(
                    snapshot,
                    (#[trigger] after[i]).0,
                ) == Some(after[i].1) by {
                    if i < before.len() {
                        assert(after[i] == before[i]);
                    }
                }
            }
        } else {
            proof {
                assert forall|i: int| 0 <= i < items@.len() implies exists|h: int|
                    0 <= h < g + 1 && (#[trigger] groups@[h]).0@ == (#[trigger] before[i]).0 by {
                    let h = choose|h: int|
                        0 <= h < g && (#[trigger] groups@[h]).0@ == (#[trigger] before[i]).0;
                    assert(groups@[h].0@ == before[i].0);
                }
            }
        }
        g = g + 1;
    }
    proof {
        let merged = items_view(items@);
        assert forall|key: Seq<u8>| (#[trigger] spec_merged_entry(snapshot, key))
            is Some implies exists|i: int| 0 <= i < merged.len() && (#[trigger] merged[i]).0
            == key by {
            lemma_winner_sound(snapshot, key);
            let winner = spec_winner(snapshot, key)->Some_0;
            let j = winner.0;
            let at = choose|at: int|
                0 <= at < snapshot[j].pairs.len() && (#[trigger] snapshot[j].pairs[at]).0 == key;
            assert(maps[j][at] == snapshot[j].pairs[at]);
            let (h, n) = choose|h: int, n: int|
                #![trigger groups@[h].1@[n]]
                {
                    &&& 0 <= h < groups@.len()
                    &&& 0 <= n < groups@[h].1@.len()
                    &&& groups@[h].0@ == maps[j][at].0
                    &&& groups@[h].1@[n].0 == j
                    &&& groups@[h].1@[n].1 == maps[j][at].1
                };
            assert(spec_merged_entry(snapshot, groups@[h].0@) is Some);
        }
    }
    items
}

/// What a merge gives: the merged segment, and the number of keys in it.
pub struct Merged {
    pub segment: Segment,
    pub written: u64,
}

/// Merges a snapshot of segments into one segment.
///
/// The segment stores, in the order of the keys, the merged entry of every
/// key that has one. `written` counts them.
pub fn merge_segments(segments: &Vec<Arc<Segment>>) -> (merged: Merged)
    ensures
        exists|items: Seq<(Seq<u8>, IndexEntry)>|
            {
                &&& #[trigger] is_merge_of(items, segments_view(segments@))
                &&& merged.segment@ == spec_segment(items)
                &&& merged.written == items.len()
            },
{
    let items = merge_entries(segments);
    let written = items.len() as u64;
    match Segment::build(&items) {
        Ok(segment) => {
            assert(is_merge_of(items_view(items@), segments_view(segments@)));
            Merged { segment, written }
        },
        Err(_) => {
            proof {
                assert(false);
            }
            vstd::pervasive::unreached()
        },
    }
}

} // verus!
