//! Integer-to-text conversion in any radix, one digit per division.

use crate::buffer::{copy_to_dst, spec_written};
use crate::digit::{digit_to_char, spec_char_to_digit, spec_digit_to_char};
use vstd::arithmetic::div_mod::{lemma_div_is_ordered_by_denominator, lemma_fundamental_div_mod};
use vstd::arithmetic::power2::{lemma2_to64, lemma_pow2_unfold, pow2};
use vstd::prelude::*;

verus! {

/// The most digits any 128-bit value has, in any radix.
pub const MAX_DIGITS: usize = 128;

/// The digits of `value` in `radix`, most significant first, as characters.
/// Zero is the single digit `0`; no other value starts with `0`.
pub open spec fn spec_digits(value: nat, radix: nat) -> Seq<u8>
    decreases value,
{
    if radix < 2 || value < radix {
        seq![spec_digit_to_char(value as int)]
    } else {
        proof {
            lemma_quotient_smaller(value, radix);
        }
        spec_digits(value / radix, radix).push(spec_digit_to_char((value % radix) as int))
    }
}

/// Dividing by a radix makes a value that has several digits smaller, and
/// leaves it above zero.
pub proof fn lemma_quotient_smaller(value: nat, radix: nat)
    by (nonlinear_arith)
    requires
        2 <= radix <= value,
    ensures
        1 <= value / radix < value,
{
}

/// The number that a sequence of digit characters denotes in `radix`.
/// A character that is no digit counts as zero.
pub open spec fn spec_digits_value(digits: Seq<u8>, radix: nat) -> nat
    decreases digits.len(),
{
    if digits.len() == 0 {
        0
    } else {
        let last = match spec_char_to_digit(digits.last(), radix as int) {
            Some(d) => d as nat,
            None => 0,
        };
        spec_digits_value(digits.drop_last(), radix) * radix + last
    }
}

/// Every value has at least one digit, each of them a digit of the radix,
/// and only zero starts with the digit `0`.
pub proof fn lemma_digits_shape(value: nat, radix: nat)
    requires
        2 <= radix <= 36,
    ensures
        spec_digits(value, radix).len() >= 1,
        forall|i: int|
            0 <= i < spec_digits(value, radix).len() ==> spec_char_to_digit(
                #[trigger] spec_digits(value, radix)[i],
                radix as int,
            ) is Some,
        value == 0 ==> spec_digits(value, radix) == seq![48u8],
        value != 0 ==> spec_digits(value, radix)[0] != 48u8,
    decreases value,
{
    if value >= radix {
        lemma_fundamental_div_mod(value as int, radix as int);
        lemma_quotient_smaller(value, radix);
        lemma_digits_shape(value / radix, radix);
    }
}

/// The digits of a value denote that value.
pub proof fn lemma_digits_value(value: nat, radix: nat)
    requires
        2 <= radix <= 36,
    ensures
        spec_digits_value(spec_digits(value, radix), radix) == value,
    decreases value,
{
    let digits = spec_digits(value, radix);
    if value < radix {
        assert(digits.drop_last().len() == 0);
        assert(spec_digits_value(digits.drop_last(), radix) == 0);
        assert(digits.last() == spec_digit_to_char(value as int));
    } else {
        let high = value / radix;
        let low = value % radix;
        lemma_fundamental_div_mod(value as int, radix as int);
        lemma_quotient_smaller(value, radix);
        lemma_digits_value(high, radix);
        assert(digits.drop_last() == spec_digits(high, radix));
        assert(digits.last() == spec_digit_to_char(low as int));
        assert(spec_digits_value(digits, radix) == high * radix + low);
        assert(high * radix == radix * high) by (nonlinear_arith);
    }
}

/// A value below `2^bits` has at most `bits` digits, and at least one.
pub proof fn lemma_digits_len(value: nat, radix: nat, bits: nat)
    requires
        2 <= radix,
        bits >= 1,
        value < pow2(bits),
    ensures
        1 <= spec_digits(value, radix).len() <= bits,
    decreases value,
{
    if value >= radix {
        lemma_pow2_unfold(bits);
        lemma2_to64();
        if bits == 1 {
            assert(pow2(1) == 2);
        }
        assert(bits >= 2);
        lemma_step_below(value, radix, bits);
        lemma_quotient_smaller(value, radix);
        lemma_digits_len(value / radix, radix, (bits - 1) as nat);
    }
}

/// Dividing by the radix takes at least one bit off a value.
pub proof fn lemma_step_below(value: nat, radix: nat, bits: nat)
    requires
        2 <= radix,
        bits >= 1,
        value < pow2(bits),
    ensures
        value / radix < pow2((bits - 1) as nat),
{
    lemma_pow2_unfold(bits);
    lemma_div_is_ordered_by_denominator(value as int, 2, radix as int);
    assert(value / 2 < pow2((bits - 1) as nat));
}

/// The digits of `value` in `radix`, at the end of an array of 128 bytes,
/// and the index of the first of them.
pub fn digits_of(value: u128, radix: u32) -> (r: ([u8; 128], usize))
    requires
        2 <= radix <= 36,
    ensures
        r.1 < 128,
        r.0@.subrange(r.1 as int, 128) == spec_digits(value as nat, radix as nat),
{
    let mut digits: [u8; 128] = [0u8; 128];
    let mut index: usize = 128;
    let base: u128 = radix as u128;
    let mut rest: u128 = value;
    proof {
        lemma2_to64();
        assert(pow2(128) == 0x1_0000_0000_0000_0000_0000_0000_0000_0000) by {
            vstd::arithmetic::power2::lemma_pow2_adds(64, 64);
        }
    }
    while rest >= base
        invariant
            base == radix,
            2 <= radix <= 36,
            1 <= index <= 128,
            rest < pow2(index as nat),
            spec_digits(value as nat, radix as nat) == spec_digits(rest as nat, radix as nat)
                + digits@.subrange(index as int, 128),
        decreases rest,
    {
        let low: u128 = rest % base;
        let ghost before = rest;
        proof {
            lemma_step_below(rest as nat, radix as nat, index as nat);
            lemma_pow2_unfold(index as nat);
            if index == 1 {
                assert(pow2(1) == 2) by {
                    lemma2_to64();
                }
            }
            lemma_quotient_smaller(rest as nat, radix as nat);
        }
        rest = rest / base;
        index = index - 1;
        digits[index] = digit_to_char(low as u32);
        assert(spec_digits(before as nat, radix as nat) == spec_digits(rest as nat, radix as nat)
            + seq![spec_digit_to_char(low as int)]);
        assert(digits@.subrange(index as int, 128) == seq![spec_digit_to_char(low as int)]
            + digits@.subrange(index + 1, 128));
    }
    index = index - 1;
    digits[index] = digit_to_char(rest as u32);
    assert(spec_digits(rest as nat, radix as nat) == seq![spec_digit_to_char(rest as int)]);
    assert(digits@.subrange(index as int, 128) == seq![spec_digit_to_char(rest as int)]
        + digits@.subrange(index + 1, 128));
    (digits, index)
}

/// Writes the digits of `value` in `radix` at the start of `buffer` and
/// returns how many there are. The bytes behind them stay as they were, and
/// no byte of the buffer is read.
pub fn write_digits(value: u128, radix: u32, buffer: &mut [u8]) -> (count: usize)
    requires
        2 <= radix <= 36,
        old(buffer)@.len() >= spec_digits(value as nat, radix as nat).len(),
    ensures
        count == spec_digits(value as nat, radix as nat).len(),
        1 <= count <= MAX_DIGITS,
        final(buffer)@ == spec_written(old(buffer)@, spec_digits(value as nat, radix as nat)),
{
    let (digits, index) = digits_of(value, radix);
    let text = vstd::slice::slice_subrange(digits.as_slice(), index, 128);
    copy_to_dst(buffer, 0, text)
}

/// An unsigned integer that can be written digit by digit.
pub trait Compact: Sized {
    /// The number this value is.
    spec fn spec_value(self) -> nat;

    /// This value, widened.
    fn widen(self) -> (wide: u128)
        ensures
            wide == self.spec_value(),
    ;

    /// Writes this value in `radix` at the start of `buffer` and returns the
    /// number of bytes written.
    fn compact(self, radix: u32, buffer: &mut [u8]) -> (count: usize)
        requires
            2 <= radix <= 36,
            old(buffer)@.len() >= spec_digits(self.spec_value(), radix as nat).len(),
        ensures
            count == spec_digits(self.spec_value(), radix as nat).len(),
            1 <= count <= MAX_DIGITS,
            final(buffer)@ == spec_written(
                old(buffer)@,
                spec_digits(self.spec_value(), radix as nat),
            ),
    {
        write_digits(self.widen(), radix, buffer)
    }
}

impl Compact for u8 {
    open spec fn spec_value(self) -> nat {
        self as nat
    }

    fn widen(self) -> (wide: u128) {
        self as u128
    }
}

impl Compact for u16 {
    open spec fn spec_value(self) -> nat {
        self as nat
    }

    fn widen(self) -> (wide: u128) {
        self as u128
    }
}

impl Compact for u32 {
    open spec fn spec_value(self) -> nat {
        self as nat
    }

    fn widen(self) -> (wide: u128) {
        self as u128
    }
}

impl Compact for u64 {
    open spec fn spec_value(self) -> nat {
        self as nat
    }

    fn widen(self) -> (wide: u128) {
        self as u128
    }
}

impl Compact for u128 {
    open spec fn spec_value(self) -> nat {
        self as nat
    }

    fn widen(self) -> (wide: u128) {
        self
    }
}

impl Compact for usize {
    open spec fn spec_value(self) -> nat {
        self as nat
    }

    fn widen(self) -> (wide: u128) {
        self as u128
    }
}

} // verus!
