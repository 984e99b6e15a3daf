//! Small helpers on strings.

use vstd::prelude::*;
use vstd::string::*;

verus! {

/// The characters of `text`, one by one.
pub fn chars_of(text: &str) -> (chars: Vec<char>)
    ensures
        chars@ == text@,
{
    let mut chars: Vec<char> = Vec::new();
    for c in it: text.chars()
        invariant
            it.seq() == text@,
            chars@ == it.seq().take(it.index()),
    {
        assert(it.seq().take(it.index() + 1) =~= it.seq().take(it.index()).push(c));
        chars.push(c);
    }
    assert(text@.take(text@.len() as int) =~= text@);
    chars
}

} // verus!
