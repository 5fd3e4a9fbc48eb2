//! Integer-to-text conversion in any radix, two digits per division.
//!
//! A value is divided by the square of the radix, and what is left over
//! gives two digits at once; a last single digit follows where the count
//! of digits is odd. The digits are those that one division per digit
//! gives.

use crate::buffer::{copy_to_dst, spec_written};
use crate::compact::{
    lemma_quotient_smaller, lemma_step_below, spec_digits, MAX_DIGITS,
};
use crate::digit::{digit_to_char, spec_digit_to_char};
use vstd::arithmetic::div_mod::{
    lemma_div_denominator, lemma_fundamental_div_mod, lemma_fundamental_div_mod_converse,
    lemma_mod_breakdown, lemma_mod_mod,
};
use vstd::arithmetic::power2::{lemma2_to64, lemma_pow2_unfold, pow2};
use vstd::prelude::*;

verus! {

/// The digits of a value of two or more digits end with the two digits
/// that are left over when the value is divided by the square of the
/// radix; before them stand the digits of the quotient, unless it is zero.
pub proof fn lemma_digits_by_pairs(value: nat, radix: nat)
    requires
        2 <= radix <= value,
    ensures
        value / (radix * radix) < value,
        (value % (radix * radix)) / radix < radix,
        (value % (radix * radix)) % radix < radix,
        value >= radix * radix ==> spec_digits(value, radix) == spec_digits(
            value / (radix * radix),
            radix,
        ) + seq![
            spec_digit_to_char(((value % (radix * radix)) / radix) as int),
            spec_digit_to_char(((value % (radix * radix)) % radix) as int),
        ],
        value < radix * radix ==> value / radix < radix && spec_digits(value, radix) == seq![
            spec_digit_to_char((value / radix) as int),
            spec_digit_to_char((value % radix) as int),
        ],
{
    let r = radix as int;
    let x = value as int;
    let square = r * r;
    assert(square >= 2 * r) by (nonlinear_arith)
        requires
            square == r * r,
            r >= 2,
    ;
    let pair = x % square;
    let high = x / r;
    lemma_quotient_smaller(value, radix);
    lemma_div_denominator(x, r, r);
    lemma_mod_mod(x, r, r);
    lemma_mod_breakdown(x, r, r);
    lemma_fundamental_div_mod(x, r);
    lemma_fundamental_div_mod(high, r);
    lemma_fundamental_div_mod_converse(pair, r, high % r, x % r);
    assert(spec_digits(value, radix) == spec_digits(high as nat, radix).push(
        spec_digit_to_char(x % r),
    ));
    if x >= square {
        assert(high >= r) by (nonlinear_arith)
            requires
                x >= r * r,
                x == r * high + x % r,
                x % r < r,
                r >= 2,
        ;
        lemma_quotient_smaller(high as nat, radix);
        assert(spec_digits(high as nat, radix) == spec_digits((high / r) as nat, radix).push(
            spec_digit_to_char(high % r),
        ));
        assert(spec_digits(value, radix) =~= spec_digits((x / square) as nat, radix) + seq![
            spec_digit_to_char(pair / r),
            spec_digit_to_char(pair % r),
        ]);
    } else {
        assert(high < r) by (nonlinear_arith)
            requires
                x < r * r,
                x == r * high + x % r,
                0 <= x % r,
                r >= 2,
        ;
        vstd::arithmetic::div_mod::lemma_small_mod(value, square as nat);
        assert(spec_digits(high as nat, radix) == seq![spec_digit_to_char(high)]);
        assert(spec_digits(value, radix) =~= seq![
            spec_digit_to_char(x / r),
            spec_digit_to_char(x % r),
        ]);
    }
}

/// The digits of `value` in `radix`, at the end of an array of 128 bytes,
/// and the index of the first of them: the digits that
/// `compact::digits_of` gives, found two at a time.
pub fn digits_of(value: u128, radix: u32) -> (r: ([u8; 128], usize))
    requires
        2 <= radix <= 36,
    ensures
        r.1 < 128,
        r.0@.subrange(r.1 as int, 128) == spec_digits(value as nat, radix as nat),
{
    let mut digits: [u8; 128] = [0u8; 128];
    let mut index: usize = 128;
    let base: u128 = radix as u128;
    assert(4 <= base * base <= 1296) by (nonlinear_arith)
        requires
            2 <= base <= 36,
    ;
    let square: u128 = base * base;
    let mut rest: u128 = value;
    proof {
        lemma2_to64();
        assert(pow2(128) == 0x1_0000_0000_0000_0000_0000_0000_0000_0000) by {
            vstd::arithmetic::power2::lemma_pow2_adds(64, 64);
        }
    }
    while rest >= square
        invariant
            base == radix,
            square == base * base,
            2 <= radix <= 36,
            4 <= square <= 1296,
            index % 2 == 0,
            2 <= index <= 128,
            rest < pow2(index as nat),
            spec_digits(value as nat, radix as nat) == spec_digits(rest as nat, radix as nat)
                + digits@.subrange(index as int, 128),
        decreases rest,
    {
        let pair: u128 = rest % square;
        let ghost before = rest;
        proof {
            assert(square >= base) by (nonlinear_arith)
                requires
                    square == base * base,
                    base >= 2,
            ;
            lemma_digits_by_pairs(rest as nat, radix as nat);
            lemma_step_below(rest as nat, radix as nat, index as nat);
            lemma_step_below((rest / base) as nat, radix as nat, (index - 1) as nat);
            lemma_div_denominator(rest as int, radix as int, radix as int);
            lemma_pow2_unfold(index as nat);
            lemma_pow2_unfold((index - 1) as nat);
            lemma2_to64();
            assert(index > 2);
        }
        rest = rest / square;
        let low = digit_to_char((pair % base) as u32);
        let high = digit_to_char((pair / base) as u32);
        index = index - 1;
        digits[index] = low;
        index = index - 1;
        digits[index] = high;
        assert(digits@.subrange(index as int, 128) == seq![high, low] + digits@.subrange(
            index + 2,
            128,
        ));
    }
    if rest >= base {
        proof {
            lemma_digits_by_pairs(rest as nat, radix as nat);
        }
        let low = digit_to_char((rest % base) as u32);
        let high = digit_to_char((rest / base) as u32);
        index = index - 1;
        digits[index] = low;
        index = index - 1;
        digits[index] = high;
        assert(digits@.subrange(index as int, 128) == seq![high, low] + digits@.subrange(
            index + 2,
            128,
        ));
    } else {
        index = index - 1;
        digits[index] = digit_to_char(rest as u32);
        assert(spec_digits(rest as nat, radix as nat) == seq![spec_digit_to_char(rest as int)]);
        assert(digits@.subrange(index as int, 128) == seq![spec_digit_to_char(rest as int)]
            + digits@.subrange(index + 1, 128));
    }
    (digits, index)
}

/// Writes the digits of `value` in `radix` at the start of `buffer` and
/// returns how many there are: the bytes that `compact::write_digits`
/// writes. The bytes behind them stay as they were, and no byte of the
/// buffer is read.
pub fn write_digits(value: u128, radix: u32, buffer: &mut [u8]) -> (count: usize)
    requires
        2 <= radix <= 36,
        old(buffer)@.len() >= spec_digits(value as nat, radix as nat).len(),
    ensures
        count == spec_digits(value as nat, radix as nat).len(),
        1 <= count <= MAX_DIGITS,
        final(buffer)@ == spec_written(old(buffer)@, spec_digits(value as nat, radix as nat)),
{
    let (digits, index) = digits_of(value, radix);
    let text = vstd::slice::slice_subrange(digits.as_slice(), index, 128);
    copy_to_dst(buffer, 0, text)
}

} // verus!
