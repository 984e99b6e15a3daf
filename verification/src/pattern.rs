//! From a query to the regular expression that searches for it.
//!
//! A query is split into words at whitespace. The pattern is the prefix
//! `(?i)(?s).*` followed, for each word in turn, by the word with its regex
//! meta characters escaped and by `.*`.

use crate::text::chars_of;
use vstd::prelude::*;
use vstd::string::*;

verus! {

/// Whether `c` has the Unicode property `White_Space`.
pub open spec fn is_whitespace(c: char) -> bool {
    let v = c as u32;
    ||| 0x09 <= v <= 0x0d
    ||| v == 0x20
    ||| v == 0x85
    ||| v == 0xa0
    ||| v == 0x1680
    ||| 0x2000 <= v <= 0x200a
    ||| v == 0x2028
    ||| v == 0x2029
    ||| v == 0x202f
    ||| v == 0x205f
    ||| v == 0x3000
}

/// Whether `c` has a meaning of its own in a regular expression.
pub open spec fn is_meta_character(c: char) -> bool {
    ||| c == '\\'
    ||| c == '.'
    ||| c == '+'
    ||| c == '*'
    ||| c == '?'
    ||| c == '('
    ||| c == ')'
    ||| c == '|'
    ||| c == '['
    ||| c == ']'
    ||| c == '{'
    ||| c == '}'
    ||| c == '^'
    ||| c == '$'
    ||| c == '#'
    ||| c == '&'
    ||| c == '-'
    ||| c == '~'
}

/// `text` with a backslash put before each of its meta characters.
pub open spec fn spec_escape(text: Seq<char>) -> Seq<char>
    decreases text.len(),
{
    if text.len() == 0 {
        Seq::empty()
    } else if is_meta_character(text[0]) {
        seq!['\\', text[0]] + spec_escape(text.drop_first())
    } else {
        seq![text[0]] + spec_escape(text.drop_first())
    }
}

/// The length of the word that `text` starts with: the number of characters
/// before its first whitespace.
pub open spec fn word_len(text: Seq<char>) -> nat
    decreases text.len(),
{
    if text.len() == 0 || is_whitespace(text[0]) {
        0
    } else {
        1 + word_len(text.drop_first())
    }
}

/// What the words of `query` add to the pattern: each word escaped and
/// followed by `.*`, in the order of the words.
pub open spec fn spec_pattern_body(query: Seq<char>) -> Seq<char>
    decreases query.len(),
    via spec_pattern_body_terminates
{
    if query.len() == 0 {
        Seq::empty()
    } else if is_whitespace(query[0]) {
        spec_pattern_body(query.drop_first())
    } else {
        let n = word_len(query) as int;
        spec_escape(query.take(n)) + seq!['.', '*'] + spec_pattern_body(query.skip(n))
    }
}

#[via_fn]
proof fn spec_pattern_body_terminates(query: Seq<char>) {
    lemma_word_len_bound(query);
}

/// What every pattern starts with: case-insensitive, dot matches newline,
/// anything may come first.
pub open spec fn spec_pattern_prefix() -> Seq<char> {
    seq!['(', '?', 'i', ')', '(', '?', 's', ')', '.', '*']
}

/// The pattern that searches for `query`.
pub open spec fn spec_pattern(query: Seq<char>) -> Seq<char> {
    spec_pattern_prefix() + spec_pattern_body(query)
}

/// A word is never longer than the text it starts.
pub proof fn lemma_word_len_bound(text: Seq<char>)
    ensures
        word_len(text) <= text.len(),
        word_len(text) < text.len() ==> is_whitespace(text[word_len(text) as int]),
        forall|i: int| 0 <= i < word_len(text) ==> !is_whitespace(#[trigger] text[i]),
    decreases text.len(),
{
    if text.len() == 0 || is_whitespace(text[0]) {
    } else {
        let rest = text.drop_first();
        lemma_word_len_bound(rest);
        assert forall|i: int| 0 <= i < word_len(text) implies !is_whitespace(
            #[trigger] text[i],
        ) by {
            if i > 0 {
                assert(text[i] == rest[i - 1]);
            }
        }
    }
}

/// A run of non-whitespace characters that ends at whitespace, or at the
/// end of the text, is the word that the text starts with.
proof fn lemma_word_len_is(text: Seq<char>, n: int)
    requires
        0 <= n <= text.len(),
        forall|i: int| 0 <= i < n ==> !is_whitespace(#[trigger] text[i]),
        n < text.len() ==> is_whitespace(text[n]),
    ensures
        word_len(text) == n,
    decreases n,
{
    if n > 0 {
        let rest = text.drop_first();
        assert forall|i: int| 0 <= i < n - 1 implies !is_whitespace(#[trigger] rest[i]) by {
            assert(rest[i] == text[i + 1]);
        }
        lemma_word_len_is(rest, n - 1);
    }
}

/// Tells whether `c` has the Unicode property `White_Space`.
pub fn char_is_whitespace(c: char) -> (white: bool)
    ensures
        white == is_whitespace(c),
{
    let v: u32 = c as u32;
    (0x09 <= v && v <= 0x0d) || v == 0x20 || v == 0x85 || v == 0xa0 || v == 0x1680 || (0x2000
        <= v && v <= 0x200a) || v == 0x2028 || v == 0x2029 || v == 0x202f || v == 0x205f || v
        == 0x3000
}

/// Escapes the regex meta characters of `text`.
///
/// Trusted: calls `regex_syntax::escape`, which copies `text` and puts a
/// backslash before each character that `regex_syntax::is_meta_character`
/// accepts; `is_meta_character` lists those eighteen characters.
#[verifier::external_body]
fn escape(text: &str) -> (escaped: String)
    ensures
        escaped@ == spec_escape(text@),
{
    regex_syntax::escape(text)
}

/// Builds the pattern that searches for `query`.
pub fn search_pattern(query: &str) -> (pattern: String)
    ensures
        pattern@ == spec_pattern(query@),
{
    let chars = chars_of(query);
    let n = chars.len();
    let mut pattern = String::from_str("(?i)(?s).*");
    proof {
        reveal_strlit("(?i)(?s).*");
        reveal_strlit(".*");
        assert("(?i)(?s).*"@ =~= spec_pattern_prefix());
        assert(".*"@ =~= seq!['.', '*']);
        assert(query@.skip(0) =~= query@);
    }
    let mut i: usize = 0;
    while i < n
        invariant
            n == query@.len(),
            chars@ == query@,
            i <= n,
            ".*"@ == seq!['.', '*'],
            pattern@ + spec_pattern_body(query@.skip(i as int)) == spec_pattern(query@),
        decreases n - i,
    {
        let ghost rest = query@.skip(i as int);
        if char_is_whitespace(chars[i]) {
            proof {
                assert(rest.drop_first() =~= query@.skip(i + 1));
            }
            i = i + 1;
        } else {
            let start = i;
            while i < n && !char_is_whitespace(chars[i])
                invariant
                    n == query@.len(),
                    chars@ == query@,
                    start <= i <= n,
                    forall|k: int| start <= k < i ==> !is_whitespace(#[trigger] query@[k]),
                decreases n - i,
            {
                i = i + 1;
            }
            let word = query.substring_char(start, i);
            let escaped = escape(word);
            proof {
                let len = i - start;
                assert forall|k: int| 0 <= k < len implies !is_whitespace(#[trigger] rest[k]) by {
                    assert(rest[k] == query@[start + k]);
                }
                lemma_word_len_is(rest, len);
                assert(rest.take(len) =~= query@.subrange(start as int, i as int));
                assert(rest.skip(len) =~= query@.skip(i as int));
            }
            let ghost before = pattern@;
            pattern.append(escaped.as_str());
            pattern.append(".*");
            proof {
                assert(pattern@ + spec_pattern_body(query@.skip(i as int)) =~= before + (
                spec_escape(word@) + seq!['.', '*'] + spec_pattern_body(query@.skip(i as int))));
            }
        }
    }
    proof {
        assert(query@.skip(n as int) =~= Seq::<char>::empty());
        assert(pattern@ + Seq::<char>::empty() =~= pattern@);
    }
    pattern
}

} // verus!
