//! The plain subsequence test: do the characters of a query occur in a
//! target, in their order and with anything in between?
//!
//! The test is exact in case. The index itself matches with a compiled
//! pattern; this test needs no pattern and no automaton.

use crate::text::chars_of;
use vstd::prelude::*;

verus! {

/// The characters of `needle` occur in `hay` in their order: each is
/// matched with the first character of `hay` that is equal to it and lies
/// behind the match of the one before.
pub open spec fn is_subsequence(needle: Seq<char>, hay: Seq<char>) -> bool
    decreases hay.len(),
{
    if needle.len() == 0 {
        true
    } else if hay.len() == 0 {
        false
    } else if needle[0] == hay[0] {
        is_subsequence(needle.drop_first(), hay.drop_first())
    } else {
        is_subsequence(needle, hay.drop_first())
    }
}

/// `at` places `needle` in `hay`: it gives each character of `needle` a
/// place in `hay` that holds the same character, and the places ascend.
pub open spec fn embeds(needle: Seq<char>, hay: Seq<char>, at: Seq<int>) -> bool {
    &&& at.len() == needle.len()
    &&& forall|i: int|
        0 <= i < at.len() ==> 0 <= #[trigger] at[i] < hay.len() && hay[at[i]] == needle[i]
    &&& forall|i: int, j: int| 0 <= i < j < at.len() ==> #[trigger] at[i] < #[trigger] at[j]
}

/// Where the test holds, the needle can be placed in the hay.
pub proof fn lemma_subsequence_places(needle: Seq<char>, hay: Seq<char>) -> (at: Seq<int>)
    requires
        is_subsequence(needle, hay),
    ensures
        embeds(needle, hay, at),
    decreases hay.len(),
{
    if needle.len() == 0 {
        Seq::empty()
    } else if needle[0] == hay[0] {
        let rest = lemma_subsequence_places(needle.drop_first(), hay.drop_first());
        let at = seq![0int] + Seq::new(rest.len(), |i: int| rest[i] + 1);
        assert forall|i: int| 0 <= i < at.len() implies 0 <= #[trigger] at[i] < hay.len()
            && hay[at[i]] == needle[i] by {
            if i > 0 {
                assert(at[i] == rest[i - 1] + 1);
                assert(hay.drop_first()[rest[i - 1]] == needle.drop_first()[i - 1]);
            }
        }
        assert forall|i: int, j: int| 0 <= i < j < at.len() implies #[trigger] at[i]
            < #[trigger] at[j] by {
            assert(at[j] == rest[j - 1] + 1);
            if i > 0 {
                assert(at[i] == rest[i - 1] + 1);
                assert(rest[i - 1] < rest[j - 1]);
            } else {
                assert(0 <= rest[j - 1]);
            }
        }
        at
    } else {
        let rest = lemma_subsequence_places(needle, hay.drop_first());
        let at = Seq::new(rest.len(), |i: int| rest[i] + 1);
        assert forall|i: int| 0 <= i < at.len() implies 0 <= #[trigger] at[i] < hay.len()
            && hay[at[i]] == needle[i] by {
            assert(hay.drop_first()[rest[i]] == needle[i]);
        }
        assert forall|i: int, j: int| 0 <= i < j < at.len() implies #[trigger] at[i]
            < #[trigger] at[j] by {
            assert(rest[i] < rest[j]);
        }
        at
    }
}

/// Where the needle can be placed in the hay, the test holds.
pub proof fn lemma_places_subsequence(needle: Seq<char>, hay: Seq<char>, at: Seq<int>)
    requires
        embeds(needle, hay, at),
    ensures
        is_subsequence(needle, hay),
    decreases hay.len(),
{
    if needle.len() > 0 {
        assert(0 <= at[0] < hay.len());
        if needle[0] == hay[0] {
            let rest = Seq::new((at.len() - 1) as nat, |i: int| at[i + 1] - 1);
            assert forall|i: int| 0 <= i < rest.len() implies 0 <= #[trigger] rest[i]
                < hay.drop_first().len() && hay.drop_first()[rest[i]] == needle.drop_first()[i] by {
                assert(at[0] < at[i + 1]);
                assert(hay[at[i + 1]] == needle[i + 1]);
            }
            assert forall|i: int, j: int| 0 <= i < j < rest.len() implies #[trigger] rest[i]
                < #[trigger] rest[j] by {
                assert(at[i + 1] < at[j + 1]);
            }
            lemma_places_subsequence(needle.drop_first(), hay.drop_first(), rest);
        } else {
            let rest = Seq::new(at.len(), |i: int| at[i] - 1);
            assert forall|i: int| 0 <= i < rest.len() implies 0 <= #[trigger] rest[i]
                < hay.drop_first().len() && hay.drop_first()[rest[i]] == needle[i] by {
                assert(hay[at[i]] == needle[i]);
                if i > 0 {
                    assert(at[0] < at[i]);
                }
            }
            assert forall|i: int, j: int| 0 <= i < j < rest.len() implies #[trigger] rest[i]
                < #[trigger] rest[j] by {
                assert(at[i] < at[j]);
            }
            lemma_places_subsequence(needle, hay.drop_first(), rest);
        }
    }
}

/// Tells whether the characters of `query` occur in `target` in their
/// order.
pub fn is_fuzzy_match(query: &str, target: &str) -> (found: bool)
    ensures
        found == is_subsequence(query@, target@),
{
    let needle = chars_of(query);
    let hay = chars_of(target);
    let mut i: usize = 0;
    let mut j: usize = 0;
    proof {
        assert(query@.skip(0) =~= query@);
        assert(target@.skip(0) =~= target@);
    }
    while i < needle.len() && j < hay.len()
        invariant
            needle@ == query@,
            hay@ == target@,
            i <= needle@.len(),
            j <= hay@.len(),
            is_subsequence(query@, target@) == is_subsequence(
                query@.skip(i as int),
                target@.skip(j as int),
            ),
        decreases hay@.len() - j,
    {
        proof {
            assert(query@.skip(i as int).drop_first() =~= query@.skip(i + 1));
            assert(target@.skip(j as int).drop_first() =~= target@.skip(j + 1));
            assert(query@.skip(i as int)[0] == needle@[i as int]);
            assert(target@.skip(j as int)[0] == hay@[j as int]);
        }
        if needle[i] == hay[j] {
            i = i + 1;
        }
        j = j + 1;
    }
    i == needle.len()
}

} // verus!
