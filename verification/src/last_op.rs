//! The last-operation marker: a sequence number stored as decimal text.

use crate::text::chars_of;
use vstd::prelude::*;
use vstd::string::*;

verus! {

/// Whether `c` is one of the digits `0` to `9`.
pub open spec fn is_digit(c: char) -> bool {
    '0' <= c <= '9'
}

/// The digit that stands for `d`, for `d` below ten.
pub open spec fn digit_char(d: nat) -> char {
    if d == 0 {
        '0'
    } else if d == 1 {
        '1'
    } else if d == 2 {
        '2'
    } else if d == 3 {
        '3'
    } else if d == 4 {
        '4'
    } else if d == 5 {
        '5'
    } else if d == 6 {
        '6'
    } else if d == 7 {
        '7'
    } else if d == 8 {
        '8'
    } else {
        '9'
    }
}

/// The number that a digit stands for.
pub open spec fn digit_value(c: char) -> nat {
    (c as u32 - '0' as u32) as nat
}

/// Whether `text` is made of digits only.
pub open spec fn all_digits(text: Seq<char>) -> bool {
    forall|i: int| 0 <= i < text.len() ==> is_digit(#[trigger] text[i])
}

/// The number that a run of digits reads as, most significant digit first.
pub open spec fn digits_value(text: Seq<char>) -> nat
    decreases text.len(),
{
    if text.len() == 0 {
        0
    } else {
        10 * digits_value(text.drop_last()) + digit_value(text.last())
    }
}

/// `n` in decimal, without leading zeros.
pub open spec fn spec_decimal(n: nat) -> Seq<char>
    decreases n,
{
    if n < 10 {
        seq![digit_char(n)]
    } else {
        spec_decimal(n / 10).push(digit_char(n % 10))
    }
}

/// The sequence number that a marker text holds: the text is one or more
/// digits, after at most one leading `+`, and the number fits in 64 bits.
/// Any other text holds none.
pub open spec fn spec_parse_last_op(text: Seq<char>) -> Option<u64> {
    let digits = if text.len() > 0 && text[0] == '+' {
        text.drop_first()
    } else {
        text
    };
    if digits.len() > 0 && all_digits(digits) && digits_value(digits) <= u64::MAX {
        Some(digits_value(digits) as u64)
    } else {
        None
    }
}

/// A run of digits reads as no less than any run that it starts with.
proof fn lemma_digits_value_grows(text: Seq<char>, n: int)
    requires
        0 <= n <= text.len(),
    ensures
        digits_value(text.take(n)) <= digits_value(text),
    decreases text.len() - n,
{
    if n == text.len() {
        assert(text.take(n) =~= text);
    } else {
        lemma_digits_value_grows(text, n + 1);
        assert(text.take(n + 1).drop_last() =~= text.take(n));
    }
}

/// The digit of a number below ten is a digit that stands for the number.
proof fn lemma_digit_char(d: nat)
    requires
        d < 10,
    ensures
        is_digit(digit_char(d)),
        digit_value(digit_char(d)) == d,
        digit_char(d) != '+',
{
}

/// The decimal text of a number is digits that read as the number.
pub proof fn lemma_decimal_value(n: nat)
    ensures
        spec_decimal(n).len() > 0,
        all_digits(spec_decimal(n)),
        digits_value(spec_decimal(n)) == n,
        spec_decimal(n)[0] != '+',
    decreases n,
{
    if n < 10 {
        lemma_digit_char(n);
        assert(spec_decimal(n).drop_last() =~= Seq::<char>::empty());
        assert(digits_value(spec_decimal(n).drop_last()) == 0);
    } else {
        lemma_decimal_value(n / 10);
        lemma_digit_char(n % 10);
        assert(spec_decimal(n).drop_last() =~= spec_decimal(n / 10));
        assert(spec_decimal(n).last() == digit_char(n % 10));
        assert(spec_decimal(n)[0] == spec_decimal(n / 10)[0]);
    }
}

/// A marker that was written for a sequence number reads as that number.
pub proof fn lemma_last_op_round_trip(seq: u64)
    ensures
        spec_parse_last_op(spec_decimal(seq as nat)) == Some(seq),
{
    lemma_decimal_value(seq as nat);
}

/// Reads the text of a marker.
pub fn parse_last_op(text: &str) -> (seq: Option<u64>)
    ensures
        seq == spec_parse_last_op(text@),
{
    let chars = chars_of(text);
    let n = chars.len();
    let start: usize = if n > 0 && chars[0] == '+' {
        1
    } else {
        0
    };
    let ghost digits = text@.skip(start as int);
    proof {
        if start == 1 {
            assert(text@.drop_first() =~= digits);
        } else {
            assert(text@ =~= digits);
        }
    }
    if start == n {
        return None;
    }
    let mut value: u64 = 0;
    let mut i: usize = start;
    while i < n
        invariant
            chars@ == text@,
            n == text@.len(),
            start <= i <= n,
            digits == text@.skip(start as int),
            digits == if text@.len() > 0 && text@[0] == '+' {
                text@.drop_first()
            } else {
                text@
            },
            all_digits(digits.take(i - start)),
            value == digits_value(digits.take(i - start)),
        decreases n - i,
    {
        let c = chars[i];
        let ghost upto = digits.take(i - start);
        proof {
            assert(digits.take(i - start + 1).drop_last() =~= upto);
            assert(digits.take(i - start + 1).last() == c);
            lemma_digits_value_grows(digits, i - start + 1);
        }
        if !('0' <= c && c <= '9') {
            proof {
                assert(digits[i - start] == c);
                assert(!is_digit(digits[i - start]));
            }
            return None;
        }
        let d: u64 = (c as u32 - '0' as u32) as u64;
        assert(d == digit_value(c));
        assert(d < 10);
        if value > (u64::MAX - d) / 10 {
            proof {
                assert(digits_value(digits.take(i - start + 1)) == 10 * value + d);
                assert(10 * value + d > u64::MAX);
            }
            return None;
        }
        value = value * 10 + d;
        proof {
            assert forall|k: int| 0 <= k < i - start + 1 implies is_digit(
                #[trigger] digits.take(i - start + 1)[k],
            ) by {
                if k < i - start {
                    assert(is_digit(upto[k]));
                }
            }
        }
        i = i + 1;
    }
    proof {
        assert(digits.take(n - start) =~= digits);
    }
    Some(value)
}

/// The text of one digit.
fn digit_text(d: u64) -> (text: &'static str)
    requires
        d < 10,
    ensures
        text@ == seq![digit_char(d as nat)],
{
    proof {
        reveal_strlit("0");
        reveal_strlit("1");
        reveal_strlit("2");
        reveal_strlit("3");
        reveal_strlit("4");
        reveal_strlit("5");
        reveal_strlit("6");
        reveal_strlit("7");
        reveal_strlit("8");
        reveal_strlit("9");
    }
    let text = if d == 0 {
        "0"
    } else if d == 1 {
        "1"
    } else if d == 2 {
        "2"
    } else if d == 3 {
        "3"
    } else if d == 4 {
        "4"
    } else if d == 5 {
        "5"
    } else if d == 6 {
        "6"
    } else if d == 7 {
        "7"
    } else if d == 8 {
        "8"
    } else {
        "9"
    };
    assert(text@ =~= seq![digit_char(d as nat)]);
    text
}

/// Writes a sequence number as the text of a marker.
pub fn format_last_op(seq: u64) -> (text: String)
    ensures
        text@ == spec_decimal(seq as nat),
    decreases seq,
{
    if seq < 10 {
        String::from_str(digit_text(seq))
    } else {
        let mut text = format_last_op(seq / 10);
        text.append(digit_text(seq % 10));
        assert(text@ =~= spec_decimal(seq as nat));
        text
    }
}

} // verus!
