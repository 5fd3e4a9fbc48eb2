//! What the float writers of the radices 2, 4, 8, 16 and 32 share.
//!
//! In such a radix every digit holds a whole number of bits, so the digits
//! of a float are the digits of its mantissa, shifted until the binary
//! point falls between two digits.

use crate::buffer::{
    append, lemma_written_nothing, pad, put, spec_holds, spec_repeat, spec_written_at,
};
use crate::algorithm::digits_of;
use crate::compact::{lemma_digits_shape, spec_digits};
use crate::buffer::spec_written;
use crate::float::FloatParts;
use crate::format::{mantissa_radix, spec_exponent_base, spec_is_valid, spec_mantissa_radix};
use crate::options::Options;
use vstd::arithmetic::div_mod::{
    lemma_fundamental_div_mod, lemma_fundamental_div_mod_converse,
};
use vstd::arithmetic::power2::{lemma2_to64, lemma_pow2_pos, lemma_pow2_unfold, pow2};
use vstd::prelude::*;

verus! {

/// The whole part of the binary logarithm of `x`; 0 for 0.
pub open spec fn spec_log2(x: nat) -> nat
    decreases x,
{
    if x < 2 {
        0
    } else {
        1 + spec_log2(x / 2)
    }
}

/// The number of bits of `x` without its leading zeros; 0 for 0.
pub open spec fn spec_bit_length(x: nat) -> nat
    decreases x,
{
    if x == 0 {
        0
    } else {
        1 + spec_bit_length(x / 2)
    }
}

/// `x / y`, rounded up.
pub open spec fn spec_ceildiv(x: int, y: int) -> int {
    (x + (y - 1)) / y
}

/// By how many bits a mantissa scaled by `2^exp` is shifted up so that the
/// exponent left is a multiple of `bits_per_digit`.
pub open spec fn spec_shl(exp: int, bits_per_digit: int) -> int {
    exp % bits_per_digit
}

/// Whether `radix` is 2, 4, 8, 16 or 32.
pub open spec fn spec_is_power_of_two_radix(radix: u32) -> bool {
    radix == 2 || radix == 4 || radix == 8 || radix == 16 || radix == 32
}

/// The logarithms of the five radices.
pub proof fn lemma_log2_of_radix(radix: u32)
    requires
        spec_is_power_of_two_radix(radix),
    ensures
        1 <= spec_log2(radix as nat) <= 5,
        pow2(spec_log2(radix as nat)) == radix,
        radix == 2 ==> spec_log2(radix as nat) == 1,
        radix == 4 ==> spec_log2(radix as nat) == 2,
        radix == 8 ==> spec_log2(radix as nat) == 3,
        radix == 16 ==> spec_log2(radix as nat) == 4,
        radix == 32 ==> spec_log2(radix as nat) == 5,
{
    reveal_with_fuel(spec_log2, 6);
    lemma2_to64();
}

/// A number lies below two to the number of its bits, and not below the
/// power before unless it is zero.
pub proof fn lemma_bit_length(x: nat)
    ensures
        x < pow2(spec_bit_length(x)),
        x > 0 ==> pow2((spec_bit_length(x) - 1) as nat) <= x,
    decreases x,
{
    lemma2_to64();
    if x > 0 {
        lemma_bit_length(x / 2);
        lemma_pow2_unfold(spec_bit_length(x));
        if x / 2 > 0 {
            lemma_pow2_unfold(spec_bit_length(x / 2));
        }
    }
}

/// A number below `2^bits` has at most `bits` bits.
pub proof fn lemma_bit_length_bound(x: nat, bits: nat)
    requires
        x < pow2(bits),
    ensures
        spec_bit_length(x) <= bits,
    decreases x,
{
    lemma2_to64();
    if x > 0 {
        if bits == 0 {
            assert(false);
        }
        lemma_pow2_unfold(bits);
        lemma_bit_length_bound(x / 2, (bits - 1) as nat);
    }
}

/// The whole part of the binary logarithm of `x`.
pub fn fast_log2(x: u32) -> (log: i32)
    ensures
        log == spec_log2(x as nat),
        0 <= log < 32,
{
    let mut rest = x;
    let mut log: i32 = 0;
    proof {
        lemma2_to64();
    }
    while rest >= 2
        invariant
            spec_log2(x as nat) == log + spec_log2(rest as nat),
            0 <= log,
            rest < pow2((32 - log) as nat),
            log < 32,
        decreases rest,
    {
        proof {
            lemma2_to64();
            lemma_pow2_unfold((32 - log) as nat);
        }
        rest = rest / 2;
        log = log + 1;
    }
    log
}

/// The number of bits of `x` without its leading zeros.
pub fn bit_length(x: u64) -> (bits: u32)
    ensures
        bits == spec_bit_length(x as nat),
        bits <= 64,
{
    let mut rest = x;
    let mut bits: u32 = 0;
    proof {
        lemma2_to64();
    }
    while rest > 0
        invariant
            spec_bit_length(x as nat) == bits + spec_bit_length(rest as nat),
            bits <= 64,
            rest < pow2((64 - bits) as nat),
        decreases rest,
    {
        proof {
            lemma2_to64();
            if bits < 64 {
                lemma_pow2_unfold((64 - bits) as nat);
            }
        }
        rest = rest / 2;
        bits = bits + 1;
    }
    bits
}

/// `x / y`, rounded up.
pub fn fast_ceildiv(x: i32, y: i32) -> (quotient: i32)
    requires
        0 <= x,
        0 < y,
        x + y - 1 <= i32::MAX,
    ensures
        quotient == spec_ceildiv(x as int, y as int),
        0 <= quotient <= x,
{
    proof {
        lemma_fundamental_div_mod(x + y - 1, y as int);
        assert(0 <= (x + y - 1) / (y as int) <= x) by (nonlinear_arith)
            requires
                0 <= x,
                0 < y,
        ;
    }
    (x + (y - 1)) / y
}

/// The shift that puts the binary point of a mantissa scaled by `2^exp`
/// between two digits of `bits_per_digit` bits.
pub fn calculate_shl(exp: i32, bits_per_digit: i32) -> (shl: i32)
    requires
        0 < bits_per_digit,
        exp > i32::MIN,
    ensures
        shl == spec_shl(exp as int, bits_per_digit as int),
        0 <= shl < bits_per_digit,
{
    if exp < 0 {
        let back = -exp;
        let shr = back % bits_per_digit;
        proof {
            let b = bits_per_digit as int;
            lemma_fundamental_div_mod(back as int, b);
            let q = back as int / b;
            if shr == 0 {
                assert(exp as int == (-q) * b + 0) by (nonlinear_arith)
                    requires
                        back as int == b * q + 0,
                        exp as int == -(back as int),
                ;
                lemma_fundamental_div_mod_converse(exp as int, b, -q, 0);
            } else {
                assert(exp as int == (-q - 1) * b + (b - shr)) by (nonlinear_arith)
                    requires
                        back as int == b * q + shr,
                        exp as int == -(back as int),
                ;
                lemma_fundamental_div_mod_converse(exp as int, b, -q - 1, b - shr);
            }
        }
        if shr == 0 {
            shr
        } else {
            bits_per_digit - shr
        }
    } else {
        exp % bits_per_digit
    }
}

/// Two to the power `k`.
pub fn pow2_u64(k: u32) -> (power: u64)
    requires
        k < 64,
    ensures
        power == pow2(k as nat),
{
    let mut power: u64 = 1;
    let mut i: u32 = 0;
    proof {
        lemma2_to64();
    }
    while i < k
        invariant
            i <= k < 64,
            power == pow2(i as nat),
        decreases k - i,
    {
        proof {
            lemma_pow2_unfold((i + 1) as nat);
            vstd::arithmetic::power2::lemma_pow2_strictly_increases((i + 1) as nat, 64);
            lemma2_to64_rest_64();
        }
        power = power * 2;
        i = i + 1;
    }
    power
}

/// Two to the 64th.
proof fn lemma2_to64_rest_64()
    ensures
        pow2(64) == 0x1_0000_0000_0000_0000,
{
    lemma2_to64();
}

/// How many of `digits` are left once the zeros at their end are taken
/// off; the first digit always stays.
pub open spec fn spec_significant_len(digits: Seq<u8>) -> int
    decreases digits.len(),
{
    if digits.len() > 1 && digits.last() == 48 {
        spec_significant_len(digits.drop_last())
    } else {
        digits.len() as int
    }
}

/// The digits of a number with `leading` of them before the point.
///
/// The integer part is the first `leading` digits, with zeros added where
/// there are fewer. The fraction is what follows them, without the zeros at
/// its end, and zeros are added again until `min` digits are written. A
/// number without a fraction ends in `.0`, or with its integer part where
/// `trim` is set.
pub open spec fn spec_number_text(
    digits: Seq<u8>,
    leading: int,
    point: u8,
    min: int,
    trim: bool,
) -> Seq<u8> {
    let count = spec_significant_len(digits);
    let integer = if leading <= digits.len() {
        digits.subrange(0, leading)
    } else {
        digits + spec_repeat(48, leading - digits.len())
    };
    if leading < count {
        integer.push(point) + digits.subrange(leading, count) + spec_repeat(48, min - count)
    } else if trim {
        integer
    } else {
        integer.push(point).push(48) + spec_repeat(48, min - leading - 1)
    }
}

/// The digits of a number below one whose first digit stands `zeros`
/// places behind the point: `0.`, the zeros before the first digit, the
/// digits without the zeros at their end, and zeros until `min` digits are
/// written.
pub open spec fn spec_fraction_text(digits: Seq<u8>, zeros: int, point: u8, min: int) -> Seq<u8> {
    let count = spec_significant_len(digits);
    seq![48u8, point] + spec_repeat(48, zeros - 1) + digits.subrange(0, count) + spec_repeat(
        48,
        min - count,
    )
}

/// An exponent: its character, a `-` where it is negative or a `+` where a
/// sign is required, and the digits of its size in `radix`.
pub open spec fn spec_exponent_text(exponent: int, character: u8, sign: bool, radix: nat) -> Seq<
    u8,
> {
    let size = if exponent < 0 {
        (-exponent) as nat
    } else {
        exponent as nat
    };
    let signed = if exponent < 0 {
        seq![character, 45u8]
    } else if sign {
        seq![character, 43u8]
    } else {
        seq![character]
    };
    signed + spec_digits(size, radix)
}

/// The first digit stays, and no more digits are left than there were.
pub proof fn lemma_significant_len(digits: Seq<u8>)
    requires
        digits.len() >= 1,
    ensures
        1 <= spec_significant_len(digits) <= digits.len(),
        spec_significant_len(digits) > 1 ==> digits[spec_significant_len(digits) - 1] != 48,
    decreases digits.len(),
{
    if digits.len() > 1 && digits.last() == 48 {
        lemma_significant_len(digits.drop_last());
    }
}

/// Counts the digits that are left without the zeros at their end.
pub fn significant_len(digits: &[u8]) -> (count: usize)
    requires
        digits@.len() >= 1,
    ensures
        count == spec_significant_len(digits@),
        1 <= count <= digits@.len(),
{
    let mut count = digits.len();
    assert(digits@.subrange(0, count as int) == digits@);
    while count > 1 && digits[count - 1] == 48
        invariant
            1 <= count <= digits@.len(),
            spec_significant_len(digits@) == spec_significant_len(
                digits@.subrange(0, count as int),
            ),
        decreases count,
    {
        assert(digits@.subrange(0, count as int).drop_last() == digits@.subrange(
            0,
            count as int - 1,
        ));
        count = count - 1;
    }
    count
}

/// Writes the digits of a number with `leading` of them before the point,
/// from index `at` of `bytes` on, and returns the index behind them.
pub fn write_number(
    bytes: &mut [u8],
    at: usize,
    digits: &[u8],
    leading: usize,
    point: u8,
    min: usize,
    trim: bool,
) -> (end: usize)
    requires
        digits@.len() >= 1,
        leading >= 1,
        at + spec_number_text(digits@, leading as int, point, min as int, trim).len() <= old(
            bytes,
        )@.len(),
    ensures
        end == at + spec_number_text(digits@, leading as int, point, min as int, trim).len(),
        final(bytes)@.len() == old(bytes)@.len(),
        final(bytes)@ == spec_written_at(
            old(bytes)@,
            at as int,
            spec_number_text(digits@, leading as int, point, min as int, trim),
        ),
{
    let len = bytes.len();
    let n = digits.len();
    let count = significant_len(digits);
    let ghost before = bytes@;
    let ghost none = Seq::<u8>::empty();
    let ghost integer = if leading <= n {
        digits@.subrange(0, leading as int)
    } else {
        digits@ + spec_repeat(48, leading - n)
    };
    proof {
        lemma_written_nothing(before, at as int);
    }
    let mut cursor = at;
    if leading <= n {
        let part = vstd::slice::slice_subrange(digits, 0, leading);
        cursor = append(bytes, cursor, part, Ghost(before), Ghost(at as int), Ghost(none));
        assert(none + part@ == integer);
    } else {
        cursor = append(bytes, cursor, digits, Ghost(before), Ghost(at as int), Ghost(none));
        assert(none + digits@ == digits@);
        cursor = pad(bytes, cursor, leading - n, 48, Ghost(before), Ghost(at as int), Ghost(digits@));
    }
    assert(spec_holds(bytes@, before, at as int, integer));
    if leading < count {
        let ghost fraction = digits@.subrange(leading as int, count as int);
        cursor = put(bytes, cursor, point, Ghost(before), Ghost(at as int), Ghost(integer));
        let part = vstd::slice::slice_subrange(digits, leading, count);
        cursor =
        append(bytes, cursor, part, Ghost(before), Ghost(at as int), Ghost(integer.push(point)));
        if min > count {
            cursor =
            pad(
                bytes,
                cursor,
                min - count,
                48,
                Ghost(before),
                Ghost(at as int),
                Ghost(integer.push(point) + fraction),
            );
        } else {
            assert(integer.push(point) + fraction + spec_repeat(48, min - count) == integer.push(
                point,
            ) + fraction);
        }
    } else if !trim {
        cursor = put(bytes, cursor, point, Ghost(before), Ghost(at as int), Ghost(integer));
        cursor =
        put(bytes, cursor, 48, Ghost(before), Ghost(at as int), Ghost(integer.push(point)));
        if min > leading + 1 {
            cursor =
            pad(
                bytes,
                cursor,
                min - leading - 1,
                48,
                Ghost(before),
                Ghost(at as int),
                Ghost(integer.push(point).push(48)),
            );
        } else {
            assert(integer.push(point).push(48) + spec_repeat(48, min - leading - 1)
                == integer.push(point).push(48));
        }
    }
    cursor
}

/// Writes the digits of a number below one whose first digit stands
/// `zeros` places behind the point, from index `at` of `bytes` on, and
/// returns the index behind them.
pub fn write_fraction(
    bytes: &mut [u8],
    at: usize,
    digits: &[u8],
    zeros: usize,
    point: u8,
    min: usize,
) -> (end: usize)
    requires
        digits@.len() >= 1,
        zeros >= 1,
        at + spec_fraction_text(digits@, zeros as int, point, min as int).len() <= old(
            bytes,
        )@.len(),
    ensures
        end == at + spec_fraction_text(digits@, zeros as int, point, min as int).len(),
        final(bytes)@.len() == old(bytes)@.len(),
        final(bytes)@ == spec_written_at(
            old(bytes)@,
            at as int,
            spec_fraction_text(digits@, zeros as int, point, min as int),
        ),
{
    let len = bytes.len();
    let count = significant_len(digits);
    let ghost before = bytes@;
    let ghost none = Seq::<u8>::empty();
    let ghost head = seq![48u8, point];
    let ghost lead = spec_repeat(48, zeros - 1);
    let ghost body = digits@.subrange(0, count as int);
    proof {
        lemma_written_nothing(before, at as int);
    }
    let mut cursor = at;
    cursor = put(bytes, cursor, 48, Ghost(before), Ghost(at as int), Ghost(none));
    cursor = put(bytes, cursor, point, Ghost(before), Ghost(at as int), Ghost(none.push(48u8)));
    assert(none.push(48u8).push(point) == head);
    cursor = pad(bytes, cursor, zeros - 1, 48, Ghost(before), Ghost(at as int), Ghost(head));
    let part = vstd::slice::slice_subrange(digits, 0, count);
    cursor = append(bytes, cursor, part, Ghost(before), Ghost(at as int), Ghost(head + lead));
    if min > count {
        cursor =
        pad(
            bytes,
            cursor,
            min - count,
            48,
            Ghost(before),
            Ghost(at as int),
            Ghost(head + lead + body),
        );
    } else {
        assert(head + lead + body + spec_repeat(48, min - count) == head + lead + body);
    }
    cursor
}

/// The multiple of `unit` that is nearest to `value`; of two that are
/// equally near, the even multiple.
pub open spec fn spec_round_half_even(value: nat, unit: nat) -> nat {
    let quotient = value / unit;
    let rest = value % unit;
    if 2 * rest > unit || (2 * rest == unit && quotient % 2 == 1) {
        (quotient + 1) * unit
    } else {
        quotient * unit
    }
}

/// How many digits of `bits_per_digit` bits a value has.
pub open spec fn spec_digit_count(value: nat, bits_per_digit: nat) -> nat {
    if value == 0 {
        1
    } else {
        spec_ceildiv(spec_bit_length(value) as int, bits_per_digit as int) as nat
    }
}

/// The mantissa of a float scaled by `2^exp`, rounded to at most `max`
/// digits of `bits_per_digit` bits. The digits are counted from where the
/// binary point falls between two of them; what is rounded off are whole
/// digits, to the nearest value, and to the even one of two that are
/// equally near.
pub open spec fn spec_truncate_and_round(
    mantissa: nat,
    exp: int,
    bits_per_digit: nat,
    max: Option<usize>,
) -> nat {
    let shl = spec_shl(exp, bits_per_digit as int) as nat;
    let aligned = mantissa * pow2(shl);
    let digits = spec_digit_count(aligned, bits_per_digit);
    match max {
        Some(max) => if digits > max {
            let unit = pow2(((digits - max) * bits_per_digit) as nat);
            spec_round_half_even(aligned, unit) / pow2(shl)
        } else {
            mantissa
        },
        None => mantissa,
    }
}

/// Rounds the mantissa of a float scaled by `2^exp` to the most digits
/// that the options allow, and counts the bits of what is left.
pub fn truncate_and_round(mantissa: u64, exp: i32, radix: u32, options: &Options) -> (r: (
    u64,
    usize,
))
    requires
        spec_is_power_of_two_radix(radix),
        mantissa < 0x400_0000_0000_0000,
        exp > i32::MIN,
        options.max_significant_digits matches Some(max) ==> max > 0,
    ensures
        r.0 == spec_truncate_and_round(
            mantissa as nat,
            exp as int,
            spec_log2(radix as nat),
            options.max_significant_digits,
        ),
        r.1 == spec_bit_length(r.0 as nat),
        r.1 <= 64,
        r.0 <= 2 * mantissa,
{
    let bits = bit_length(mantissa);
    let max = match options.max_significant_digits {
        Some(max) => max,
        None => {
            return (mantissa, bits as usize);
        },
    };
    proof {
        lemma_log2_of_radix(radix);
        lemma2_to64();
    }
    let per_digit = fast_log2(radix);
    let shl = calculate_shl(exp, per_digit);
    let scale = pow2_u64(shl as u32);
    assert(scale <= 16) by {
        vstd::arithmetic::power2::lemma_pow2_strictly_increases(shl as nat, 5);
    }
    assert(mantissa * scale <= 0x4000_0000_0000_0000) by (nonlinear_arith)
        requires
            mantissa < 0x400_0000_0000_0000,
            0 < scale <= 16,
    ;
    let aligned = mantissa * scale;
    let aligned_bits = bit_length(aligned);
    proof {
        vstd::arithmetic::power2::lemma2_to64_rest();
        lemma_bit_length_bound(aligned as nat, 63);
    }
    let digits: i32 = if aligned == 0 {
        1
    } else {
        fast_ceildiv(aligned_bits as i32, per_digit)
    };
    if digits as usize <= max {
        return (mantissa, bits as usize);
    }
    let dropped = digits - max as i32;
    proof {
        let b = per_digit as int;
        lemma_fundamental_div_mod(aligned_bits + b - 1, b);
        assert((digits - 1) * b < aligned_bits) by (nonlinear_arith)
            requires
                aligned_bits + b - 1 == b * digits + (aligned_bits + b - 1) % b,
                0 <= (aligned_bits + b - 1) % b,
                b > 0,
        ;
        assert(0 < dropped * b <= (digits - 1) * b) by (nonlinear_arith)
            requires
                0 < dropped <= digits - 1,
                b > 0,
        ;
    }
    let drop = dropped * per_digit;
    let unit = pow2_u64(drop as u32);
    proof {
        lemma_bit_length(aligned as nat);
        if drop < aligned_bits - 1 {
            vstd::arithmetic::power2::lemma_pow2_strictly_increases(
                drop as nat,
                (aligned_bits - 1) as nat,
            );
        }
        lemma_pow2_pos(drop as nat);
        lemma_fundamental_div_mod(aligned as int, unit as int);
    }
    let quotient = aligned / unit;
    let rest = aligned % unit;
    let up = 2 * rest > unit || (2 * rest == unit && quotient % 2 == 1);
    assert(quotient * unit <= aligned && (quotient + 1) * unit <= aligned + unit) by (nonlinear_arith)
        requires
            aligned == unit * quotient + rest,
            0 <= rest,
    ;
    let rounded = if up {
        (quotient + 1) * unit
    } else {
        quotient * unit
    };
    assert(rounded / scale <= 2 * mantissa) by (nonlinear_arith)
        requires
            rounded <= 2 * (mantissa * scale),
            0 < scale,
    ;
    let rounded_mantissa = rounded / scale;
    (rounded_mantissa, bit_length(rounded_mantissa) as usize)
}

/// The digits of a mantissa scaled by `2^exp` in a radix that is a power
/// of two: the digits of the mantissa shifted up until the exponent left
/// is a whole number of digits.
pub open spec fn spec_aligned_digits(mantissa: nat, exp: int, radix: u32) -> Seq<u8> {
    let shl = spec_shl(exp, spec_log2(radix as nat) as int) as nat;
    spec_digits(mantissa * pow2(shl), radix as nat)
}

/// The digits of a mantissa scaled by `2^exp`, at the end of an array of
/// 128 bytes, and the index of the first of them.
pub fn aligned_digits(mantissa: u64, exp: i32, radix: u32) -> (r: ([u8; 128], usize))
    requires
        spec_is_power_of_two_radix(radix),
        mantissa <= 0x800_0000_0000_0000,
        exp > i32::MIN,
    ensures
        r.1 < 128,
        r.0@.subrange(r.1 as int, 128) == spec_aligned_digits(mantissa as nat, exp as int, radix),
        spec_aligned_digits(mantissa as nat, exp as int, radix).len() >= 1,
{
    proof {
        lemma_log2_of_radix(radix);
        lemma2_to64();
    }
    let per_digit = fast_log2(radix);
    let shl = calculate_shl(exp, per_digit);
    let scale = pow2_u64(shl as u32);
    assert(scale <= 16) by {
        vstd::arithmetic::power2::lemma_pow2_strictly_increases(shl as nat, 5);
    }
    assert(mantissa * scale <= 0x8000_0000_0000_0000) by (nonlinear_arith)
        requires
            mantissa <= 0x800_0000_0000_0000,
            0 < scale <= 16,
    ;
    let aligned = mantissa * scale;
    proof {
        lemma_digits_shape(aligned as nat, radix as nat);
    }
    digits_of(aligned as u128, radix)
}

/// Writes an exponent from index `at` of `bytes` on and returns the index
/// behind it.
pub fn write_exponent(
    bytes: &mut [u8],
    at: usize,
    exponent: i32,
    character: u8,
    sign: bool,
    radix: u32,
) -> (end: usize)
    requires
        2 <= radix <= 36,
        exponent > i32::MIN,
        at + spec_exponent_text(exponent as int, character, sign, radix as nat).len() <= old(
            bytes,
        )@.len(),
    ensures
        end == at + spec_exponent_text(exponent as int, character, sign, radix as nat).len(),
        final(bytes)@.len() == old(bytes)@.len(),
        final(bytes)@ == spec_written_at(
            old(bytes)@,
            at as int,
            spec_exponent_text(exponent as int, character, sign, radix as nat),
        ),
{
    let len = bytes.len();
    let ghost before = bytes@;
    let ghost none = Seq::<u8>::empty();
    proof {
        lemma_written_nothing(before, at as int);
    }
    let mut cursor = put(bytes, at, character, Ghost(before), Ghost(at as int), Ghost(none));
    let ghost signed = none.push(character);
    let size: u32 = if exponent < 0 {
        cursor = put(bytes, cursor, 45, Ghost(before), Ghost(at as int), Ghost(signed));
        proof {
            signed = signed.push(45u8);
        }
        (-exponent) as u32
    } else {
        if sign {
            cursor = put(bytes, cursor, 43, Ghost(before), Ghost(at as int), Ghost(signed));
            proof {
                signed = signed.push(43u8);
            }
        }
        exponent as u32
    };
    assert(spec_exponent_text(exponent as int, character, sign, radix as nat) == signed
        + spec_digits(size as nat, radix as nat));
    let (scratch, start) = digits_of(size as u128, radix);
    let digits = vstd::slice::slice_subrange(scratch.as_slice(), start, 128);
    cursor = append(bytes, cursor, digits, Ghost(before), Ghost(at as int), Ghost(signed));
    cursor
}

/// The text of a float of one or more in positional notation: as many
/// digits before the point as the scientific exponent says.
pub open spec fn spec_positive_text(
    mantissa: nat,
    exp: int,
    sci_exp: int,
    radix: u32,
    options: Options,
) -> Seq<u8> {
    spec_number_text(
        spec_aligned_digits(mantissa, exp, radix),
        sci_exp / (spec_log2(radix as nat) as int) + 1,
        options.decimal_point,
        options.spec_min_digits() as int,
        options.trim_floats,
    )
}

/// The text of a float below one in positional notation: the first digit
/// stands as many places behind the point as the scientific exponent says.
pub open spec fn spec_negative_text(
    mantissa: nat,
    exp: int,
    sci_exp: int,
    radix: u32,
    options: Options,
) -> Seq<u8> {
    spec_fraction_text(
        spec_aligned_digits(mantissa, exp, radix),
        spec_ceildiv(-sci_exp, spec_log2(radix as nat) as int),
        options.decimal_point,
        options.spec_min_digits() as int,
    )
}

/// The fewest digits that the options ask for, 0 where they ask for none.
pub fn min_digits(options: &Options) -> (min: usize)
    ensures
        min == options.spec_min_digits(),
{
    match options.min_significant_digits {
        Some(min) => min,
        None => 0,
    }
}

/// Writes a float of one or more in positional notation at the start of
/// `bytes` and returns the length of the text.
pub fn write_float_positive_exponent<const FORMAT: u128>(
    mantissa: u64,
    exp: i32,
    sci_exp: i32,
    bytes: &mut [u8],
    options: &Options,
) -> (count: usize)
    requires
        spec_is_power_of_two_radix(spec_mantissa_radix(FORMAT)),
        mantissa <= 0x800_0000_0000_0000,
        exp > i32::MIN,
        sci_exp >= 0,
        old(bytes)@.len() >= spec_positive_text(
            mantissa as nat,
            exp as int,
            sci_exp as int,
            spec_mantissa_radix(FORMAT),
            *options,
        ).len(),
    ensures
        count == spec_positive_text(
            mantissa as nat,
            exp as int,
            sci_exp as int,
            spec_mantissa_radix(FORMAT),
            *options,
        ).len(),
        final(bytes)@ == spec_written(
            old(bytes)@,
            spec_positive_text(
                mantissa as nat,
                exp as int,
                sci_exp as int,
                spec_mantissa_radix(FORMAT),
                *options,
            ),
        ),
{
    let radix = mantissa_radix(FORMAT);
    proof {
        lemma_log2_of_radix(radix);
    }
    let per_digit = fast_log2(radix);
    let (scratch, start) = aligned_digits(mantissa, exp, radix);
    let digits = vstd::slice::slice_subrange(scratch.as_slice(), start, 128);
    let leading = (sci_exp / per_digit) as usize + 1;
    write_number(
        bytes,
        0,
        digits,
        leading,
        options.decimal_point,
        min_digits(options),
        options.trim_floats,
    )
}

/// Writes a float below one in positional notation at the start of `bytes`
/// and returns the length of the text.
pub fn write_float_negative_exponent<const FORMAT: u128>(
    mantissa: u64,
    exp: i32,
    sci_exp: i32,
    bytes: &mut [u8],
    options: &Options,
) -> (count: usize)
    requires
        spec_is_power_of_two_radix(spec_mantissa_radix(FORMAT)),
        mantissa <= 0x800_0000_0000_0000,
        exp > i32::MIN,
        i32::MIN + 8 < sci_exp < 0,
        old(bytes)@.len() >= spec_negative_text(
            mantissa as nat,
            exp as int,
            sci_exp as int,
            spec_mantissa_radix(FORMAT),
            *options,
        ).len(),
    ensures
        count == spec_negative_text(
            mantissa as nat,
            exp as int,
            sci_exp as int,
            spec_mantissa_radix(FORMAT),
            *options,
        ).len(),
        final(bytes)@ == spec_written(
            old(bytes)@,
            spec_negative_text(
                mantissa as nat,
                exp as int,
                sci_exp as int,
                spec_mantissa_radix(FORMAT),
                *options,
            ),
        ),
{
    let radix = mantissa_radix(FORMAT);
    proof {
        lemma_log2_of_radix(radix);
    }
    let per_digit = fast_log2(radix);
    let (scratch, start) = aligned_digits(mantissa, exp, radix);
    let digits = vstd::slice::slice_subrange(scratch.as_slice(), start, 128);
    let zeros = fast_ceildiv(-sci_exp, per_digit);
    proof {
        lemma_fundamental_div_mod(-sci_exp + per_digit - 1, per_digit as int);
        assert(zeros >= 1) by (nonlinear_arith)
            requires
                -sci_exp + per_digit - 1 == per_digit * zeros + (-sci_exp + per_digit - 1)
                    % (per_digit as int),
                (-sci_exp + per_digit - 1) % (per_digit as int) < per_digit,
                sci_exp < 0,
                per_digit > 0,
        ;
    }
    write_fraction(bytes, 0, digits, zeros as usize, options.decimal_point, min_digits(options))
}

/// The text of the finite float `mantissa * 2^exp` in a format whose
/// exponent raises the radix of the mantissa: the text that the writer for
/// hexadecimal floats gives where one digit is one power of the base.
pub open spec fn spec_float_text(mantissa: nat, exp: int, format: u128, options: Options) -> Seq<
    u8,
> {
    crate::hex::spec_float_text(mantissa, exp, format, options)
}

/// Writes a finite float that is not negative at the start of `bytes`, in
/// a format whose exponent raises the radix of the mantissa, and returns
/// the length of the text.
pub fn write_float<const FORMAT: u128>(float: FloatParts, bytes: &mut [u8], options: &Options) -> (count:
    usize)
    requires
        float.spec_wf(),
        !float.spec_is_special(),
        !float.negative,
        spec_is_valid(FORMAT),
        spec_is_power_of_two_radix(spec_mantissa_radix(FORMAT)),
        spec_exponent_base(FORMAT) == spec_mantissa_radix(FORMAT),
        options.max_significant_digits matches Some(max) ==> max > 0,
        old(bytes)@.len() >= spec_float_text(
            float.spec_mantissa() as nat,
            float.spec_exponent(),
            FORMAT,
            *options,
        ).len(),
    ensures
        count == spec_float_text(
            float.spec_mantissa() as nat,
            float.spec_exponent(),
            FORMAT,
            *options,
        ).len(),
        final(bytes)@ == spec_written(
            old(bytes)@,
            spec_float_text(float.spec_mantissa() as nat, float.spec_exponent(), FORMAT, *options),
        ),
{
    proof {
        lemma_log2_of_radix(spec_mantissa_radix(FORMAT));
        vstd::arithmetic::div_mod::lemma_mod_self_0(
            spec_log2(spec_mantissa_radix(FORMAT) as nat) as int,
        );
    }
    crate::hex::write_float_digits::<FORMAT>(float, bytes, options)
}

} // verus!
