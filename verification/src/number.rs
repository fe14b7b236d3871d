//! Decimal number literals.

use crate::chars::CharClass;
use crate::text::{first_ascii, skip_ascii};
use vstd::prelude::*;

verus! {

/// Whether every character of the text is a digit.
pub open spec fn all_digits(text: Seq<char>) -> bool {
    forall|i: int| 0 <= i < text.len() ==> CharClass::Digit.has(#[trigger] text[i])
}

/// The value of a digit.
pub open spec fn digit_value(c: char) -> nat {
    (c as u32 - '0' as u32) as nat
}

/// The number that a text of digits denotes in base ten.
pub open spec fn decimal_value(text: Seq<char>) -> nat
    decreases text.len(),
{
    if text.len() == 0 {
        0
    } else {
        decimal_value(text.drop_last()) * 10 + digit_value(text.last())
    }
}

/// The value of a number literal: that of its digits, where the text is one
/// digit or more and nothing else, and the value fits in 64 bits.
pub open spec fn literal_value(text: Seq<char>) -> Option<u64> {
    if text.len() > 0 && all_digits(text) && decimal_value(text) <= u64::MAX {
        Some(decimal_value(text) as u64)
    } else {
        None
    }
}

/// A text denotes at least what any of its prefixes denotes.
pub proof fn lemma_decimal_value_grows(text: Seq<char>, n: int)
    requires
        0 <= n <= text.len(),
    ensures
        decimal_value(text.take(n)) <= decimal_value(text),
    decreases text.len(),
{
    if n == text.len() {
        assert(text.take(n) =~= text);
    } else {
        assert(text.drop_last().take(n) =~= text.take(n));
        lemma_decimal_value_grows(text.drop_last(), n);
    }
}

/// Reads a number literal.
pub fn parse_u64(text: &str) -> (value: Option<u64>)
    ensures
        value == literal_value(text@),
{
    let mut rest = text;
    let mut acc: u64 = 0;
    let mut seen = false;
    let ghost mut n: int = 0;
    loop
        invariant
            0 <= n <= text@.len(),
            rest@ == text@.skip(n),
            all_digits(text@.take(n)),
            acc == decimal_value(text@.take(n)),
            seen == (n > 0),
        decreases text@.len() - n,
    {
        match first_ascii(rest) {
            None => {
                proof {
                    if n == text@.len() {
                        assert(text@.take(n) =~= text@);
                    } else {
                        assert(text@[n] == rest@[0]);
                    }
                }
                return if seen && rest.is_empty() {
                    Some(acc)
                } else {
                    None
                };
            },
            Some(c) => {
                proof {
                    assert(text@[n] == rest@[0]);
                    assert(text@.take(n + 1).drop_last() =~= text@.take(n));
                    assert(text@.take(n + 1).last() == c);
                    lemma_decimal_value_grows(text@, n + 1);
                }
                if !('0' <= c && c <= '9') {
                    return None;
                }
                let d: u64 = (c as u32 - '0' as u32) as u64;
                if acc > (u64::MAX - d) / 10 {
                    return None;
                }
                acc = acc * 10 + d;
                rest = skip_ascii(rest, 1);
                proof {
                    assert(text@.skip(n).skip(1) =~= text@.skip(n + 1));
                    assert forall|i: int| 0 <= i < n + 1 implies CharClass::Digit.has(
                        #[trigger] text@.take(n + 1)[i],
                    ) by {
                        if i < n {
                            assert(text@.take(n + 1)[i] == text@.take(n)[i]);
                        }
                    }
                    n = n + 1;
                }
                seen = true;
            },
        }
    }
}

/// The character for a digit.
pub open spec fn numeral(d: nat) -> char
    recommends
        d < 10,
{
    ('0' as nat + d) as char
}

/// The digits of a number in base ten, without leading zeros.
pub open spec fn decimal_text(n: nat) -> Seq<char>
    decreases n,
{
    if n < 10 {
        seq![numeral(n)]
    } else {
        decimal_text(n / 10).push(numeral(n % 10))
    }
}

/// The digits of a number denote the number.
pub proof fn lemma_decimal_text_value(n: nat)
    ensures
        decimal_text(n).len() > 0,
        all_digits(decimal_text(n)),
        decimal_value(decimal_text(n)) == n,
    decreases n,
{
    let text = decimal_text(n);
    if n < 10 {
        assert(text.drop_last() =~= Seq::<char>::empty());
        assert(decimal_value(text.drop_last()) == 0);
        assert(text.last() == numeral(n));
    } else {
        lemma_decimal_text_value(n / 10);
        assert(text.drop_last() =~= decimal_text(n / 10));
        assert(text.last() == numeral(n % 10));
        assert forall|i: int| 0 <= i < text.len() implies CharClass::Digit.has(
            #[trigger] text[i],
        ) by {
            if i < text.len() - 1 {
                assert(text[i] == decimal_text(n / 10)[i]);
            }
        }
    }
}

/// The text of one digit.
fn digit_text(d: u64) -> (text: &'static str)
    requires
        d < 10,
    ensures
        text@ == seq![numeral(d as nat)],
{
    proof {
        reveal_strlit("0");
        reveal_strlit("1");
        reveal_strlit("2");
        reveal_strlit("3");
        reveal_strlit("4");
        reveal_strlit("5");
        reveal_strlit("6");
        reveal_strlit("7");
        reveal_strlit("8");
        reveal_strlit("9");
    }
    let text = if d == 0 {
        "0"
    } else if d == 1 {
        "1"
    } else if d == 2 {
        "2"
    } else if d == 3 {
        "3"
    } else if d == 4 {
        "4"
    } else if d == 5 {
        "5"
    } else if d == 6 {
        "6"
    } else if d == 7 {
        "7"
    } else if d == 8 {
        "8"
    } else {
        "9"
    };
    assert(text@ =~= seq![numeral(d as nat)]);
    text
}

/// Writes a number in base ten, without leading zeros.
pub fn to_decimal(n: u64) -> (text: String)
    ensures
        text@ == decimal_text(n as nat),
    decreases n,
{
    if n < 10 {
        String::from_str(digit_text(n))
    } else {
        let text = to_decimal(n / 10).concat(digit_text(n % 10));
        assert(text@ =~= decimal_text(n as nat));
        text
    }
}

} // verus!
