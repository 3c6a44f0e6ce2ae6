//! Decimal digits as characters.

use vstd::prelude::*;

verus! {

/// A decimal digit.
pub open spec fn is_digit(ch: char) -> bool {
    '0' <= ch <= '9'
}

/// The number that a decimal digit stands for.
pub open spec fn digit_value(ch: char) -> u8 {
    (ch as u8 - '0' as u8) as u8
}

/// The character that stands for the digit `d`, for `d` up to 9.
pub open spec fn digit_char(d: u8) -> char {
    "0123456789"@[d as int]
}

/// A digit and its character stand for each other.
pub proof fn lemma_digit_char(d: u8)
    requires
        d <= 9,
    ensures
        is_digit(digit_char(d)),
        digit_value(digit_char(d)) == d,
{
    reveal_strlit("0123456789");
}

} // verus!
