//! Writing an integer with its sign, in the radix of a format.

use crate::buffer::{append, lemma_written_nothing, put, spec_written};
use crate::algorithm::digits_of;
use crate::compact::spec_digits;
use crate::format::{
    has_flag, mantissa_radix, spec_mantissa_radix, spec_sign_text, REQUIRED_MANTISSA_SIGN,
};
use crate::size::{lemma_integer_text_fits, INTEGER_SIZE};
use vstd::prelude::*;

verus! {

/// The text of an integer: its sign, then the digits of its size in the
/// radix of the format.
pub open spec fn spec_integer_text(negative: bool, magnitude: nat, format: u128) -> Seq<u8> {
    spec_sign_text(negative, format) + spec_digits(magnitude, spec_mantissa_radix(format) as nat)
}

/// Writes an integer, given by its sign and its size, at the start of
/// `bytes` and returns the length of the text. The bytes behind the text
/// stay as they were.
pub fn write_integer<const FORMAT: u128>(negative: bool, magnitude: u128, bytes: &mut [u8]) -> (count:
    usize)
    requires
        2 <= spec_mantissa_radix(FORMAT) <= 36,
        old(bytes)@.len() >= spec_integer_text(negative, magnitude as nat, FORMAT).len(),
    ensures
        count == spec_integer_text(negative, magnitude as nat, FORMAT).len(),
        final(bytes)@ == spec_written(
            old(bytes)@,
            spec_integer_text(negative, magnitude as nat, FORMAT),
        ),
{
    let ghost before = bytes@;
    let ghost none = Seq::<u8>::empty();
    let ghost sign = spec_sign_text(negative, FORMAT);
    proof {
        lemma_written_nothing(before, 0);
    }
    let mut cursor: usize = 0;
    if negative {
        cursor = put(bytes, cursor, 45, Ghost(before), Ghost(0), Ghost(none));
        assert(none.push(45u8) == sign);
    } else if has_flag(FORMAT, REQUIRED_MANTISSA_SIGN) {
        cursor = put(bytes, cursor, 43, Ghost(before), Ghost(0), Ghost(none));
        assert(none.push(43u8) == sign);
    }
    let (scratch, start) = digits_of(magnitude, mantissa_radix(FORMAT));
    let digits = vstd::slice::slice_subrange(scratch.as_slice(), start, 128);
    cursor = append(bytes, cursor, digits, Ghost(before), Ghost(0), Ghost(sign));
    cursor
}

/// Writes an integer at the start of `bytes` and returns the length of
/// the text, where the radix of the format is one that numbers are
/// written in and `bytes` is long enough for every integer:
/// `INTEGER_SIZE` bytes. Nothing is written otherwise.
pub fn try_write_integer<const FORMAT: u128>(negative: bool, magnitude: u128, bytes: &mut [u8]) -> (count:
    Option<usize>)
    ensures
        count is Some <==> 2 <= spec_mantissa_radix(FORMAT) <= 36 && old(bytes)@.len()
            >= INTEGER_SIZE,
        count matches Some(length) ==> length == spec_integer_text(
            negative,
            magnitude as nat,
            FORMAT,
        ).len() && final(bytes)@ == spec_written(
            old(bytes)@,
            spec_integer_text(negative, magnitude as nat, FORMAT),
        ),
        count is None ==> final(bytes)@ == old(bytes)@,
{
    let radix = mantissa_radix(FORMAT);
    if radix < 2 || radix > 36 || bytes.len() < INTEGER_SIZE {
        return None;
    }
    proof {
        lemma_integer_text_fits(negative, magnitude, FORMAT);
    }
    Some(write_integer::<FORMAT>(negative, magnitude, bytes))
}

} // verus!
