//! Digits of radices 2 to 36 and the ASCII characters that stand for them.

use vstd::prelude::*;

verus! {

/// The smallest radix a number can be written in.
pub const MIN_RADIX: u32 = 2;

/// The largest radix a number can be written in.
pub const MAX_RADIX: u32 = 36;

/// The character for a digit: `0` to `9`, then `A` to `Z`.
pub open spec fn spec_digit_to_char(digit: int) -> u8 {
    if digit < 10 {
        (48 + digit) as u8
    } else {
        (55 + digit) as u8
    }
}

/// The value of a character as a digit of radix 36, if it has one.
/// Letters count in either case.
pub open spec fn spec_char_value(c: u8) -> Option<int> {
    if 48 <= c <= 57 {
        Some(c - 48)
    } else if 65 <= c <= 90 {
        Some(c - 55)
    } else if 97 <= c <= 122 {
        Some(c - 87)
    } else {
        None
    }
}

/// The value of a character as a digit of `radix`, if it is one.
pub open spec fn spec_char_to_digit(c: u8, radix: int) -> Option<int> {
    match spec_char_value(c) {
        Some(d) => if d < radix {
            Some(d)
        } else {
            None
        },
        None => None,
    }
}

/// Whether a character is a digit of `radix`.
pub open spec fn spec_char_is_digit(c: u8, radix: int) -> bool {
    spec_char_to_digit(c, radix) is Some
}

/// The lower-case form of an ASCII letter; every other byte is itself.
pub open spec fn spec_to_ascii_lowercase(c: u8) -> u8 {
    if 65 <= c <= 90 {
        (c + 32) as u8
    } else {
        c
    }
}

/// Writes a digit as a character.
pub fn digit_to_char(digit: u32) -> (c: u8)
    requires
        digit < 36,
    ensures
        c == spec_digit_to_char(digit as int),
{
    if digit < 10 {
        (digit + 48) as u8
    } else {
        (digit + 55) as u8
    }
}

/// Reads a character as a digit of `radix`.
pub fn char_to_digit(c: u8, radix: u32) -> (r: Option<u32>)
    ensures
        r is Some <==> spec_char_to_digit(c, radix as int) is Some,
        r is Some ==> r->0 as int == spec_char_to_digit(c, radix as int)->0,
{
    let digit: u32 = if c >= 48 && c <= 57 {
        (c - 48) as u32
    } else if c >= 65 && c <= 90 {
        (c - 55) as u32
    } else if c >= 97 && c <= 122 {
        (c - 87) as u32
    } else {
        return None;
    };
    if digit < radix {
        Some(digit)
    } else {
        None
    }
}

/// Tells whether a character is a digit of `radix`.
pub fn char_is_digit(c: u8, radix: u32) -> (r: bool)
    ensures
        r == spec_char_is_digit(c, radix as int),
{
    char_to_digit(c, radix).is_some()
}

/// Folds an upper-case ASCII letter to lower case.
pub fn to_ascii_lowercase(c: u8) -> (r: u8)
    ensures
        r == spec_to_ascii_lowercase(c),
{
    if c >= 65 && c <= 90 {
        c + 32
    } else {
        c
    }
}

/// A digit written as a character reads back as the same digit, in every
/// radix that has it.
pub proof fn lemma_digit_char_round_trip(digit: int, radix: int)
    requires
        0 <= digit < radix <= 36,
    ensures
        spec_char_to_digit(spec_digit_to_char(digit), radix) == Some(digit),
{
}

/// The character of a digit is never read as a digit of a radix that is not
/// above it, and two digits never share a character.
pub proof fn lemma_digit_char_injective(a: int, b: int)
    requires
        0 <= a < 36,
        0 <= b < 36,
        spec_digit_to_char(a) == spec_digit_to_char(b),
    ensures
        a == b,
{
}

} // verus!
