//! The memory overlay: the writes that are not committed yet.
//!
//! The overlay is an ordered map from key to entry record. It is kept as a
//! vector of pairs whose keys ascend strictly in the byte order, so that it
//! drains in the order that a segment must be written in.

use crate::entry::IndexEntry;
use crate::keys::{
    compare_keys, key_lt, lemma_bytes_lt_transitive, lemma_bytes_lt_trichotomy,
    lemma_key_bytes_injective, key_bytes, KeyOrder,
};
use vstd::prelude::*;
use vstd::string::*;

verus! {

/// Pairs under owned keys, seen as pairs under character sequences.
pub open spec fn entries_view(entries: Seq<(String, IndexEntry)>) -> Seq<(Seq<char>, IndexEntry)> {
    Seq::new(entries.len(), |i: int| (entries[i].0@, entries[i].1))
}

/// The keys of `entries` ascend strictly in the byte order.
pub open spec fn entries_ascending(entries: Seq<(Seq<char>, IndexEntry)>) -> bool {
    forall|i: int, j: int|
        #![trigger entries[i], entries[j]]
        0 <= i < j < entries.len() ==> key_lt(entries[i].0, entries[j].0)
}

/// The entry that `entries` holds for `key`, if it holds one.
pub open spec fn spec_lookup(entries: Seq<(Seq<char>, IndexEntry)>, key: Seq<char>) -> Option<
    IndexEntry,
>
    decreases entries.len(),
{
    if entries.len() == 0 {
        None
    } else if entries.last().0 == key {
        Some(entries.last().1)
    } else {
        spec_lookup(entries.drop_last(), key)
    }
}

/// `entries` with `entry` put under `key`: in place of the entry that the
/// key had, or else at the place that keeps the keys in order.
pub open spec fn spec_put(
    entries: Seq<(Seq<char>, IndexEntry)>,
    key: Seq<char>,
    entry: IndexEntry,
) -> Seq<(Seq<char>, IndexEntry)>
    decreases entries.len(),
{
    if entries.len() == 0 {
        seq![(key, entry)]
    } else if entries.last().0 == key {
        entries.drop_last().push((key, entry))
    } else if key_lt(entries.last().0, key) {
        entries.push((key, entry))
    } else {
        spec_put(entries.drop_last(), key, entry).push(entries.last())
    }
}

/// Where a put lands: given the place `at` before which every key is less
/// than `key` and from which none is, the put replaces the pair at that
/// place if it has the key, and else inserts the new pair there.
pub proof fn lemma_put_at(
    entries: Seq<(Seq<char>, IndexEntry)>,
    key: Seq<char>,
    entry: IndexEntry,
    at: int,
)
    requires
        entries_ascending(entries),
        0 <= at <= entries.len(),
        forall|i: int| 0 <= i < at ==> key_lt((#[trigger] entries[i]).0, key),
        forall|i: int| at <= i < entries.len() ==> !key_lt((#[trigger] entries[i]).0, key),
    ensures
        at < entries.len() && entries[at].0 == key ==> spec_put(entries, key, entry)
            == entries.update(at, (key, entry)),
        !(at < entries.len() && entries[at].0 == key) ==> spec_put(entries, key, entry)
            == entries.insert(at, (key, entry)),
    decreases entries.len(),
{
    let n = entries.len() as int;
    if n == 0 {
        assert(entries.insert(0, (key, entry)) =~= seq![(key, entry)]);
    } else if entries.last().0 == key {
        lemma_bytes_lt_trichotomy(key_bytes(key), key_bytes(key));
        assert(at == n - 1) by {
            if at < n - 1 {
                assert(key_lt(entries[at].0, entries[n - 1].0));
            }
        }
        assert(entries.drop_last().push((key, entry)) =~= entries.update(at, (key, entry)));
    } else if key_lt(entries.last().0, key) {
        assert(at == n);
        assert(entries.push((key, entry)) =~= entries.insert(at, (key, entry)));
    } else {
        let rest = entries.drop_last();
        assert(at <= n - 1);
        assert forall|i: int, j: int| 0 <= i < j < rest.len() implies key_lt(
            (#[trigger] rest[i]).0,
            (#[trigger] rest[j]).0,
        ) by {
            assert(key_lt(entries[i].0, entries[j].0));
        }
        assert forall|i: int| 0 <= i < at implies key_lt((#[trigger] rest[i]).0, key) by {
            assert(key_lt(entries[i].0, key));
        }
        assert forall|i: int| at <= i < rest.len() implies !key_lt((#[trigger] rest[i]).0, key) by {
            assert(!key_lt(entries[i].0, key));
        }
        lemma_put_at(rest, key, entry, at);
        if at < n && entries[at].0 == key {
            assert(at < n - 1);
            assert(rest.update(at, (key, entry)).push(entries.last()) =~= entries.update(
                at,
                (key, entry),
            ));
        } else {
            if at < n - 1 {
                assert(rest[at] == entries[at]);
            } else {
                lemma_bytes_lt_trichotomy(key_bytes(entries.last().0), key_bytes(key));
                if key_bytes(entries.last().0) == key_bytes(key) {
                    lemma_key_bytes_injective(entries.last().0, key);
                }
            }
            assert(rest.insert(at, (key, entry)).push(entries.last()) =~= entries.insert(
                at,
                (key, entry),
            ));
        }
    }
}

/// A put keeps the keys in order.
pub proof fn lemma_put_ascending(
    entries: Seq<(Seq<char>, IndexEntry)>,
    key: Seq<char>,
    entry: IndexEntry,
)
    requires
        entries_ascending(entries),
    ensures
        entries_ascending(spec_put(entries, key, entry)),
        spec_put(entries, key, entry).len() > 0,
        forall|bound: Seq<char>|
            key_lt(key, bound) && (forall|i: int|
                0 <= i < entries.len() ==> key_lt((#[trigger] entries[i]).0, bound))
                ==> forall|i: int|
                0 <= i < spec_put(entries, key, entry).len() ==> key_lt(
                    (#[trigger] spec_put(entries, key, entry)[i]).0,
                    bound,
                ),
    decreases entries.len(),
{
    let put = spec_put(entries, key, entry);
    let n = entries.len() as int;
    if n == 0 {
    } else if entries.last().0 == key {
        assert forall|i: int, j: int| 0 <= i < j < put.len() implies key_lt(
            (#[trigger] put[i]).0,
            (#[trigger] put[j]).0,
        ) by {
            assert(key_lt(entries[i].0, entries[j].0));
        }
    } else if key_lt(entries.last().0, key) {
        assert forall|i: int, j: int| 0 <= i < j < put.len() implies key_lt(
            (#[trigger] put[i]).0,
            (#[trigger] put[j]).0,
        ) by {
            if j < n {
                assert(key_lt(entries[i].0, entries[j].0));
            } else if i < n - 1 {
                assert(key_lt(entries[i].0, entries[n - 1].0));
                lemma_bytes_lt_transitive(
                    key_bytes(entries[i].0),
                    key_bytes(entries[n - 1].0),
                    key_bytes(key),
                );
            }
        }
    } else {
        let rest = entries.drop_last();
        assert forall|i: int, j: int| 0 <= i < j < rest.len() implies key_lt(
            (#[trigger] rest[i]).0,
            (#[trigger] rest[j]).0,
        ) by {
            assert(key_lt(entries[i].0, entries[j].0));
        }
        lemma_put_ascending(rest, key, entry);
        let inner = spec_put(rest, key, entry);
        let bound = entries.last().0;
        lemma_bytes_lt_trichotomy(key_bytes(bound), key_bytes(key));
        if key_bytes(bound) == key_bytes(key) {
            lemma_key_bytes_injective(bound, key);
        }
        assert(key_lt(key, bound));
        assert forall|i: int| 0 <= i < rest.len() implies key_lt((#[trigger] rest[i]).0, bound) by {
            assert(key_lt(entries[i].0, entries[n - 1].0));
        }
        assert forall|i: int, j: int| 0 <= i < j < put.len() implies key_lt(
            (#[trigger] put[i]).0,
            (#[trigger] put[j]).0,
        ) by {
            if j < inner.len() {
                assert(key_lt(inner[i].0, inner[j].0));
            } else {
                assert(key_lt(inner[i].0, bound));
            }
        }
    }
    assert forall|bound: Seq<char>|
        key_lt(key, bound) && (forall|i: int|
            0 <= i < entries.len() ==> key_lt((#[trigger] entries[i]).0, bound)) implies forall|
        i: int,
    |
        0 <= i < put.len() ==> key_lt((#[trigger] put[i]).0, bound) by {
        assert forall|i: int| 0 <= i < put.len() implies key_lt((#[trigger] put[i]).0, bound) by {
            lemma_put_member(entries, key, entry, i);
            if put[i] != (key, entry) {
                let j = choose|j: int| 0 <= j < entries.len() && entries[j] == put[i];
                assert(key_lt(entries[j].0, bound));
            }
        }
    }
}

/// Each pair of a put is the new pair or a pair that was there before.
pub proof fn lemma_put_member(
    entries: Seq<(Seq<char>, IndexEntry)>,
    key: Seq<char>,
    entry: IndexEntry,
    i: int,
)
    requires
        0 <= i < spec_put(entries, key, entry).len(),
    ensures
        spec_put(entries, key, entry)[i] == (key, entry) || exists|j: int|
            0 <= j < entries.len() && entries[j] == spec_put(entries, key, entry)[i],
    decreases entries.len(),
{
    let put = spec_put(entries, key, entry);
    let n = entries.len() as int;
    if n == 0 {
    } else if entries.last().0 == key {
        if i < n - 1 {
            assert(entries[i] == put[i]);
        }
    } else if key_lt(entries.last().0, key) {
        if i < n {
            assert(entries[i] == put[i]);
        }
    } else {
        if i < put.len() - 1 {
            lemma_put_member(entries.drop_last(), key, entry, i);
            if put[i] != (key, entry) {
                let j = choose|j: int|
                    0 <= j < entries.drop_last().len() && entries.drop_last()[j] == put[i];
                assert(entries[j] == put[i]);
            }
        } else {
            assert(entries[n - 1] == put[i]);
        }
    }
}

/// After a put the key has the new entry, and every other key has what it
/// had before.
pub proof fn lemma_put_lookup(
    entries: Seq<(Seq<char>, IndexEntry)>,
    key: Seq<char>,
    entry: IndexEntry,
    other: Seq<char>,
)
    requires
        entries_ascending(entries),
    ensures
        spec_lookup(spec_put(entries, key, entry), key) == Some(entry),
        other != key ==> spec_lookup(spec_put(entries, key, entry), other) == spec_lookup(
            entries,
            other,
        ),
    decreases entries.len(),
{
    let put = spec_put(entries, key, entry);
    let n = entries.len() as int;
    if n == 0 {
        assert(put.drop_last() =~= entries);
    } else if entries.last().0 == key {
        assert(put.drop_last() =~= entries.drop_last());
    } else if key_lt(entries.last().0, key) {
        assert(put.drop_last() =~= entries);
    } else {
        let rest = entries.drop_last();
        assert forall|i: int, j: int| 0 <= i < j < rest.len() implies key_lt(
            (#[trigger] rest[i]).0,
            (#[trigger] rest[j]).0,
        ) by {
            assert(key_lt(entries[i].0, entries[j].0));
        }
        lemma_put_lookup(rest, key, entry, other);
        assert(put.drop_last() =~= spec_put(rest, key, entry));
    }
}

/// The lookup of a key finds the pair that has the key, where one has it,
/// and nothing where none has it.
pub proof fn lemma_lookup(entries: Seq<(Seq<char>, IndexEntry)>, key: Seq<char>)
    requires
        entries_ascending(entries),
    ensures
        forall|i: int|
            0 <= i < entries.len() && (#[trigger] entries[i]).0 == key ==> spec_lookup(
                entries,
                key,
            ) == Some(entries[i].1),
        (forall|i: int| 0 <= i < entries.len() ==> (#[trigger] entries[i]).0 != key)
            ==> spec_lookup(entries, key) is None,
    decreases entries.len(),
{
    if entries.len() > 0 {
        let rest = entries.drop_last();
        assert forall|i: int, j: int| 0 <= i < j < rest.len() implies key_lt(
            (#[trigger] rest[i]).0,
            (#[trigger] rest[j]).0,
        ) by {
            assert(key_lt(entries[i].0, entries[j].0));
        }
        lemma_lookup(rest, key);
        assert forall|i: int| 0 <= i < entries.len() && (#[trigger] entries[i]).0
            == key implies spec_lookup(entries, key) == Some(entries[i].1) by {
            if i < rest.len() {
                assert(rest[i] == entries[i]);
                if entries.last().0 == key {
                    lemma_bytes_lt_trichotomy(key_bytes(key), key_bytes(key));
                    assert(key_lt(entries[i].0, entries[entries.len() - 1].0));
                }
            }
        }
        if forall|i: int| 0 <= i < entries.len() ==> (#[trigger] entries[i]).0 != key {
            assert(entries[entries.len() - 1].0 != key);
            assert forall|i: int| 0 <= i < rest.len() implies (#[trigger] rest[i]).0 != key by {
                assert(rest[i] == entries[i]);
            }
        }
    }
}

/// The writes since the last commit, by key.
pub struct Overlay {
    entries: Vec<(String, IndexEntry)>,
}

impl View for Overlay {
    type V = Seq<(Seq<char>, IndexEntry)>;

    closed spec fn view(&self) -> Seq<(Seq<char>, IndexEntry)> {
        entries_view(self.entries@)
    }
}

impl Overlay {
    /// The keys ascend strictly, so no key occurs twice.
    pub open spec fn wf(&self) -> bool {
        entries_ascending(self@)
    }

    /// An overlay that holds nothing.
    pub fn new() -> (overlay: Overlay)
        ensures
            overlay.wf(),
            overlay@ == Seq::<(Seq<char>, IndexEntry)>::empty(),
    {
        let overlay = Overlay { entries: Vec::new() };
        assert(overlay@ =~= Seq::<(Seq<char>, IndexEntry)>::empty());
        overlay
    }

    /// The number of keys that have a pending write.
    pub fn len(&self) -> (len: usize)
        ensures
            len == self@.len(),
    {
        self.entries.len()
    }

    /// Whether no write is pending.
    pub fn is_empty(&self) -> (empty: bool)
        ensures
            empty == (self@.len() == 0),
    {
        self.entries.len() == 0
    }

    /// The pending writes, in the order of their keys.
    pub fn entries(&self) -> (entries: &Vec<(String, IndexEntry)>)
        ensures
            entries_view(entries@) == self@,
    {
        &self.entries
    }

    /// The first place from which no key is less than `key`.
    fn lower_bound(&self, key: &str) -> (at: usize)
        requires
            self.wf(),
        ensures
            at <= self@.len(),
            forall|i: int| 0 <= i < at ==> key_lt((#[trigger] self@[i]).0, key@),
            forall|i: int| at <= i < self@.len() ==> !key_lt((#[trigger] self@[i]).0, key@),
    {
        let ghost all = entries_view(self.entries@);
        let mut low: usize = 0;
        let mut high: usize = self.entries.len();
        while low < high
            invariant
                all == entries_view(self.entries@),
                entries_ascending(all),
                low <= high <= all.len(),
                forall|i: int| 0 <= i < low ==> key_lt((#[trigger] all[i]).0, key@),
                forall|i: int| high <= i < all.len() ==> !key_lt((#[trigger] all[i]).0, key@),
            decreases high - low,
        {
            let mid = low + (high - low) / 2;
            match compare_keys(self.entries[mid].0.as_str(), key) {
                KeyOrder::Before => {
                    proof {
                        assert forall|i: int| 0 <= i < mid + 1 implies key_lt(
                            (#[trigger] all[i]).0,
                            key@,
                        ) by {
                            if i < mid {
                                assert(key_lt(all[i].0, all[mid as int].0));
                                lemma_bytes_lt_transitive(
                                    key_bytes(all[i].0),
                                    key_bytes(all[mid as int].0),
                                    key_bytes(key@),
                                );
                            }
                        }
                    }
                    low = mid + 1;
                },
                _ => {
                    proof {
                        assert forall|i: int| mid <= i < all.len() implies !key_lt(
                            (#[trigger] all[i]).0,
                            key@,
                        ) by {
                            if i > mid && key_lt(all[i].0, key@) {
                                assert(key_lt(all[mid as int].0, all[i].0));
                                lemma_bytes_lt_transitive(
                                    key_bytes(all[mid as int].0),
                                    key_bytes(all[i].0),
                                    key_bytes(key@),
                                );
                            }
                        }
                    }
                    high = mid;
                },
            }
        }
        low
    }

    /// Puts `entry` under `key`, in place of whatever the key had.
    pub fn insert(&mut self, key: String, entry: IndexEntry)
        requires
            old(self).wf(),
        ensures
            final(self).wf(),
            final(self)@ == spec_put(old(self)@, key@, entry),
    {
        let at = self.lower_bound(key.as_str());
        let ghost before = self@;
        proof {
            lemma_put_at(before, key@, entry, at as int);
            lemma_put_ascending(before, key@, entry);
        }
        let replace = if at < self.entries.len() {
            match compare_keys(self.entries[at].0.as_str(), key.as_str()) {
                KeyOrder::Same => true,
                _ => false,
            }
        } else {
            false
        };
        if replace {
            self.entries.set(at, (key, entry));
            assert(self@ =~= before.update(at as int, (key@, entry)));
        } else {
            self.entries.insert(at, (key, entry));
            assert(self@ =~= before.insert(at as int, (key@, entry)));
        }
    }

    /// Discards every pending write.
    pub fn clear(&mut self)
        ensures
            final(self).wf(),
            final(self)@ == Seq::<(Seq<char>, IndexEntry)>::empty(),
    {
        self.entries.clear();
        assert(self@ =~= Seq::<(Seq<char>, IndexEntry)>::empty());
    }

    /// Takes every pending write out, in the order of the keys, and leaves
    /// the overlay empty.
    pub fn drain(&mut self) -> (drained: Vec<(String, IndexEntry)>)
        ensures
            entries_view(drained@) == old(self)@,
            final(self).wf(),
            final(self)@ == Seq::<(Seq<char>, IndexEntry)>::empty(),
    {
        let mut drained: Vec<(String, IndexEntry)> = Vec::new();
        std::mem::swap(&mut self.entries, &mut drained);
        assert(self@ =~= Seq::<(Seq<char>, IndexEntry)>::empty());
        drained
    }
}

} // verus!
