//! How long the text of a number can get: the bytes that a caller's
//! buffer needs so that every number fits.

use crate::binary::{
    lemma_bit_length_bound, lemma_log2_of_radix, lemma_significant_len, spec_aligned_digits,
    spec_bit_length, spec_ceildiv, spec_digit_count, spec_exponent_text, spec_fraction_text,
    spec_is_power_of_two_radix, spec_log2, spec_number_text, spec_round_half_even, spec_shl,
    spec_truncate_and_round,
};
use crate::compact::lemma_digits_len;
use crate::decimal::{spec_bits, spec_chars, spec_digits_text, spec_round_digits};
use crate::float::{FloatKind, FloatParts};
use crate::nearest::{lemma_scaled_increases, spec_mantissa, spec_scaled, spec_shift};
use crate::format::{
    spec_exponent_base, spec_exponent_radix, spec_has_flag, spec_mantissa_radix,
};
use crate::hex::spec_scale_sci_exp;
use crate::integer::spec_integer_text;
use crate::options::Options;
use crate::write::{spec_backend, spec_can_write, spec_text, Backend};
use crate::parse_float::{lemma_pow2_increases, lemma_scaled_infinity};
use crate::shortest::{
    spec_generate, spec_high_ok, spec_increment, spec_low_ok, spec_scale_down, spec_scale_up,
    spec_shortest, spec_start, spec_steps, Remainder,
};
use vstd::arithmetic::div_mod::lemma_fundamental_div_mod;
use vstd::arithmetic::power2::{
    lemma2_to64, lemma2_to64_rest, lemma_pow2_adds, lemma_pow2_pos, lemma_pow2_unfold, pow2,
};
use vstd::prelude::*;

verus! {

/// The bytes that every integer of up to 128 bits fits in, in any radix:
/// its digits and a sign.
pub const INTEGER_SIZE: usize = 129;

/// The text of an integer of up to 128 bits is at most `INTEGER_SIZE`
/// bytes long.
pub proof fn lemma_integer_text_fits(negative: bool, magnitude: u128, format: u128)
    requires
        2 <= spec_mantissa_radix(format) <= 36,
    ensures
        spec_integer_text(negative, magnitude as nat, format).len() <= INTEGER_SIZE,
{
    lemma2_to64();
    vstd::arithmetic::power2::lemma_pow2_adds(64, 64);
    lemma_digits_len(magnitude as nat, spec_mantissa_radix(format) as nat, 128);
}

/// The digits of a number around the point are no more than the places
/// before the point, the digits given, the digits asked for, and two.
pub proof fn lemma_number_text_len(digits: Seq<u8>, leading: int, point: u8, min: int, trim: bool)
    requires
        digits.len() >= 1,
        leading >= 1,
        min >= 0,
    ensures
        spec_number_text(digits, leading, point, min, trim).len() <= leading + digits.len() + min
            + 2,
{
    lemma_significant_len(digits);
}

/// The digits of a number below one are no more than the zeros before
/// the first digit, the digits given, the digits asked for, and one.
pub proof fn lemma_fraction_text_len(digits: Seq<u8>, zeros: int, point: u8, min: int)
    requires
        digits.len() >= 1,
        zeros >= 1,
        min >= 0,
    ensures
        spec_fraction_text(digits, zeros, point, min).len() <= zeros + digits.len() + min + 1,
{
    lemma_significant_len(digits);
}

/// An exponent of 32 bits is written with at most 34 bytes.
pub proof fn lemma_exponent_text_len(exponent: int, character: u8, sign: bool, radix: nat)
    requires
        -0x1_0000_0000 < exponent < 0x1_0000_0000,
        2 <= radix,
    ensures
        spec_exponent_text(exponent, character, sign, radix).len() <= 34,
{
    lemma2_to64();
    let size = if exponent < 0 {
        (-exponent) as nat
    } else {
        exponent as nat
    };
    lemma_digits_len(size, radix, 32);
}

/// A mantissa of a float that was rounded to the digits asked for lies
/// below `2^62`.
pub proof fn lemma_rounded_mantissa(
    mantissa: nat,
    exp: int,
    bits_per_digit: nat,
    max: Option<usize>,
)
    requires
        mantissa < 0x20_0000_0000_0000,
        1 <= bits_per_digit <= 5,
        max matches Some(most) ==> most > 0,
    ensures
        spec_truncate_and_round(mantissa, exp, bits_per_digit, max) < pow2(62),
        0 <= spec_shl(exp, bits_per_digit as int) < bits_per_digit,
        pow2(spec_shl(exp, bits_per_digit as int) as nat) <= 16,
{
    let b = bits_per_digit as int;
    let shl = spec_shl(exp, b) as nat;
    lemma2_to64();
    lemma2_to64_rest();
    lemma_fundamental_div_mod(exp, b);
    lemma_pow2_increases(shl, 4);
    let scale = pow2(shl);
    lemma_pow2_pos(shl);
    let aligned = mantissa * scale;
    assert(aligned < 0x200_0000_0000_0000) by (nonlinear_arith)
        requires
            aligned == mantissa * scale,
            mantissa < 0x20_0000_0000_0000,
            0 < scale <= 16,
    ;
    let digits = spec_digit_count(aligned, bits_per_digit);
    match max {
        Some(most) => {
            if digits > most {
                let length = spec_bit_length(aligned) as int;
                lemma_bit_length_bound(aligned, 57);
                lemma_fundamental_div_mod(length + (b - 1), b);
                assert(digits * b <= length + b - 1) by (nonlinear_arith)
                    requires
                        length + (b - 1) == b * digits + (length + (b - 1)) % b,
                        0 <= (length + (b - 1)) % b,
                ;
                let drop = ((digits - most) * bits_per_digit) as nat;
                assert(0 <= (digits - most) * b <= 60) by (nonlinear_arith)
                    requires
                        digits > most,
                        most >= 1,
                        digits * b <= length + b - 1,
                        length <= 57,
                        1 <= b <= 5,
                ;
                lemma_pow2_increases(drop, 60);
                lemma_pow2_pos(drop);
                let unit = pow2(drop);
                let quotient = aligned / unit;
                lemma_fundamental_div_mod(aligned as int, unit as int);
                assert((quotient + 1) * unit <= aligned + unit) by (nonlinear_arith)
                    requires
                        aligned == unit * quotient + aligned % unit,
                        0 <= aligned % unit,
                ;
                assert(quotient * unit <= aligned) by (nonlinear_arith)
                    requires
                        aligned == unit * quotient + aligned % unit,
                        0 <= aligned % unit,
                ;
                let rounded = spec_round_half_even(aligned, unit);
                assert(rounded <= aligned + unit);
                assert(rounded / scale <= rounded) by (nonlinear_arith)
                    requires
                        rounded >= 0,
                        scale >= 1,
                ;
            }
        },
        None => {},
    }
}

/// A scientific exponent that counts powers of the exponent base is no
/// larger than the one that counts bits, but for the bits of a digit.
pub proof fn lemma_scaled_exponent(sci_exp: int, bits_per_digit: int, bits_per_base: int)
    requires
        1 <= bits_per_digit <= 5,
        1 <= bits_per_base,
    ensures
        sci_exp >= 0 ==> 0 <= spec_scale_sci_exp(sci_exp, bits_per_digit, bits_per_base)
            <= sci_exp,
        sci_exp < 0 ==> sci_exp - 5 < spec_scale_sci_exp(sci_exp, bits_per_digit, bits_per_base)
            <= 0,
        sci_exp >= 0 ==> 0 <= sci_exp / bits_per_digit <= sci_exp,
        sci_exp < 0 ==> 1 <= spec_ceildiv(-sci_exp, bits_per_digit) <= -sci_exp,
{
    let b = bits_per_digit;
    let c = bits_per_base;
    if sci_exp >= 0 {
        let whole = sci_exp / b;
        lemma_fundamental_div_mod(sci_exp, b);
        assert(0 <= whole && whole * b <= sci_exp && whole <= sci_exp) by (nonlinear_arith)
            requires
                sci_exp == b * whole + sci_exp % b,
                0 <= sci_exp % b < b,
                sci_exp >= 0,
                b >= 1,
        ;
        assert(0 <= (whole * b) / c <= whole * b) by (nonlinear_arith)
            requires
                0 <= whole * b,
                c >= 1,
        ;
    } else {
        let up = spec_ceildiv(-sci_exp, b);
        lemma_fundamental_div_mod(-sci_exp + (b - 1), b);
        assert(1 <= up && up * b <= -sci_exp + b - 1 && up <= -sci_exp) by (nonlinear_arith)
            requires
                -sci_exp + (b - 1) == b * up + (-sci_exp + (b - 1)) % b,
                0 <= (-sci_exp + (b - 1)) % b < b,
                sci_exp < 0,
                b >= 1,
        ;
        assert(0 <= (up * b) / c <= up * b) by (nonlinear_arith)
            requires
                0 <= up * b,
                c >= 1,
        ;
    }
}

/// The bytes that every float fits in, in any format that floats are
/// written in, but for the digits that the options ask for.
pub const FLOAT_SIZE: usize = 1200;

/// The text of a finite float whose radix is a power of two is, without
/// its sign, less than `FLOAT_SIZE` bytes and the digits asked for long.
pub proof fn lemma_exact_text_fits(float: FloatParts, format: u128, options: Options)
    requires
        float.spec_wf(),
        !float.spec_is_special(),
        spec_is_power_of_two_radix(spec_mantissa_radix(format)),
        spec_is_power_of_two_radix(spec_exponent_base(format)),
        2 <= spec_exponent_radix(format) <= 36,
        options.max_significant_digits matches Some(most) ==> most > 0,
    ensures
        crate::hex::spec_float_text(
            float.spec_mantissa() as nat,
            float.spec_exponent(),
            format,
            options,
        ).len() < FLOAT_SIZE + options.spec_min_digits(),
{
    let radix = spec_mantissa_radix(format);
    let mantissa = float.spec_mantissa() as nat;
    let exp = float.spec_exponent();
    let b = spec_log2(radix as nat);
    let c = spec_log2(spec_exponent_base(format) as nat);
    let min = options.spec_min_digits() as int;
    lemma_log2_of_radix(radix);
    lemma_log2_of_radix(spec_exponent_base(format));
    lemma2_to64();
    lemma2_to64_rest();
    let rounded = spec_truncate_and_round(mantissa, exp, b, options.max_significant_digits);
    lemma_rounded_mantissa(mantissa, exp, b, options.max_significant_digits);
    lemma_bit_length_bound(rounded, 62);
    let sci_exp = crate::hex::spec_sci_exp(rounded, exp);
    assert(-1074 <= exp <= 971);
    assert(-1074 <= sci_exp <= 1032);
    // The digits.
    let shl = spec_shl(exp, b as int) as nat;
    let value = rounded * pow2(shl);
    lemma_pow2_adds(62, 4);
    assert(0 <= value < pow2(66)) by (nonlinear_arith)
        requires
            value == rounded * pow2(shl),
            0 <= rounded < pow2(62),
            0 < pow2(shl) <= 16,
            pow2(66) == pow2(62) * 16,
    ;
    let chars = spec_aligned_digits(rounded, exp, radix);
    lemma_digits_len(value as nat, radix as nat, 66);
    lemma_scaled_exponent(sci_exp, b as int, c as int);
    if crate::hex::spec_uses_exponent(sci_exp, format, options) {
        let trim = options.trim_floats && !spec_has_flag(
            format,
            crate::format::NO_EXPONENT_WITHOUT_FRACTION,
        );
        lemma_number_text_len(chars, 1, options.decimal_point, min, trim);
        lemma_exponent_text_len(
            crate::hex::spec_scale_sci_exp(sci_exp, b as int, c as int),
            options.exponent,
            spec_has_flag(format, crate::format::REQUIRED_EXPONENT_SIGN),
            spec_exponent_radix(format) as nat,
        );
    } else if sci_exp >= 0 {
        lemma_number_text_len(
            chars,
            sci_exp / (b as int) + 1,
            options.decimal_point,
            min,
            options.trim_floats,
        );
    } else {
        lemma_fraction_text_len(
            chars,
            spec_ceildiv(-sci_exp, b as int),
            options.decimal_point,
            min,
        );
    }
}

/// Adding one to digits gives at least one digit and at most one more
/// than there were.
pub proof fn lemma_increment_len(digits: Seq<u8>, radix: nat)
    ensures
        1 <= spec_increment(digits, radix).len() <= digits.len() + 1,
        spec_increment(digits, radix).len() >= digits.len(),
    decreases digits.len(),
{
    if digits.len() > 0 && digits.last() + 1 >= radix {
        lemma_increment_len(digits.drop_last(), radix);
    }
}

/// Where the distance below is at least one and the denominator at most
/// `2^budget` times as large, at most `budget + 2` digits are made, on
/// `budget + 1` steps at most.
pub proof fn lemma_generate_len(
    state: Remainder,
    radix: nat,
    even: bool,
    made: Seq<u8>,
    budget: nat,
)
    requires
        radix >= 2,
        state.below >= 1,
        state.scale <= state.below * pow2(budget),
    ensures
        made.len() + 1 <= spec_generate(state, radix, even, made).len() <= made.len() + budget
            + 2,
    decreases state.scale - state.below,
{
    let digit = (state.rest * radix) / state.scale;
    let rest = (state.rest * radix) % state.scale;
    let above = state.above * radix;
    let below = state.below * radix;
    let digits = made.push(digit as u8);
    lemma_increment_len(digits, radix);
    let low = spec_low_ok(rest, below, even);
    let high = spec_high_ok(rest, state.scale, above, even);
    if !low && !high && state.below < below < state.scale {
        lemma2_to64();
        if budget == 0 {
            assert(state.below * pow2(0) == state.below);
        } else {
            lemma_pow2_unfold(budget);
            assert(state.scale <= below * pow2((budget - 1) as nat)) by (nonlinear_arith)
                requires
                    state.scale <= state.below * pow2(budget),
                    pow2(budget) == 2 * pow2((budget - 1) as nat),
                    below == state.below * radix,
                    radix >= 2,
                    state.below >= 1,
                    pow2((budget - 1) as nat) >= 0,
            ;
            lemma_generate_len(
                Remainder { rest, scale: state.scale, above, below },
                radix,
                even,
                digits,
                (budget - 1) as nat,
            );
        }
    }
}

/// Raising the denominator leaves the numerators as they are and ends
/// with a denominator that is the first one or at most the radix times
/// the remainder; where the remainder is below `2^budget` times the first
/// denominator, the denominator is raised `budget` times at most.
pub proof fn lemma_scale_up_bound(state: Remainder, radix: nat, point: int, budget: nat)
    requires
        radix >= 2,
        state.scale >= 1,
        state.rest < state.scale * pow2(budget),
    ensures
        point <= spec_scale_up(state, radix, point).1 <= point + budget,
        spec_scale_up(state, radix, point).0.rest == state.rest,
        spec_scale_up(state, radix, point).0.above == state.above,
        spec_scale_up(state, radix, point).0.below == state.below,
        spec_scale_up(state, radix, point).0.scale >= 1,
        spec_scale_up(state, radix, point).0.scale == state.scale || spec_scale_up(
            state,
            radix,
            point,
        ).0.scale <= state.rest * radix,
    decreases
        (if state.rest >= state.scale {
            state.rest - state.scale + 1
        } else {
            0
        }),
{
    let scale: nat = state.scale * radix;
    assert(state.scale < scale) by (nonlinear_arith)
        requires
            scale == state.scale * radix,
            state.scale >= 1,
            radix >= 2,
    ;
    if state.rest >= state.scale {
        lemma2_to64();
        if budget == 0 {
            assert(state.scale * pow2(0) == state.scale);
        } else {
            lemma_pow2_unfold(budget);
            assert(state.rest < scale * pow2((budget - 1) as nat)) by (nonlinear_arith)
                requires
                    state.rest < state.scale * pow2(budget),
                    pow2(budget) == 2 * pow2((budget - 1) as nat),
                    scale == state.scale * radix,
                    radix >= 2,
                    state.scale >= 1,
                    pow2((budget - 1) as nat) >= 0,
            ;
            assert(scale <= state.rest * radix) by (nonlinear_arith)
                requires
                    scale == state.scale * radix,
                    state.rest >= state.scale,
            ;
            lemma_scale_up_bound(
                Remainder { scale, ..state },
                radix,
                point + 1,
                (budget - 1) as nat,
            );
        }
    }
}

/// Raising the numerators leaves the denominator as it is, no numerator
/// smaller, and the remainder as many times the distance below as it was;
/// it ends with a remainder that is at least the denominator over the
/// radix. Where the denominator is at most `2^budget` times the
/// remainder, the numerators are raised `budget` times at most.
pub proof fn lemma_scale_down_bound(
    state: Remainder,
    radix: nat,
    point: int,
    budget: nat,
    factor: nat,
)
    requires
        radix >= 2,
        state.rest >= 1,
        state.scale <= state.rest * pow2(budget),
        state.rest <= state.below * factor,
    ensures
        point - budget <= spec_scale_down(state, radix, point).1 <= point,
        spec_scale_down(state, radix, point).0.scale == state.scale,
        spec_scale_down(state, radix, point).0.below >= state.below,
        spec_scale_down(state, radix, point).0.rest <= spec_scale_down(state, radix, point).0.below
            * factor,
        spec_scale_down(state, radix, point).0.scale <= spec_scale_down(state, radix, point).0.rest
            * radix,
    decreases state.scale - state.rest,
{
    let rest: nat = state.rest * radix;
    assert(state.rest < rest) by (nonlinear_arith)
        requires
            rest == state.rest * radix,
            state.rest >= 1,
            radix >= 2,
    ;
    if rest < state.scale {
        lemma2_to64();
        if budget == 0 {
            assert(state.rest * pow2(0) == state.rest);
        } else {
            lemma_pow2_unfold(budget);
            assert(state.scale <= rest * pow2((budget - 1) as nat)) by (nonlinear_arith)
                requires
                    state.scale <= state.rest * pow2(budget),
                    pow2(budget) == 2 * pow2((budget - 1) as nat),
                    rest == state.rest * radix,
                    radix >= 2,
                    state.rest >= 1,
                    pow2((budget - 1) as nat) >= 0,
            ;
            assert(state.below * radix >= state.below) by (nonlinear_arith)
                requires
                    radix >= 1,
                    state.below >= 0,
            ;
            assert(rest <= (state.below * radix) * factor) by (nonlinear_arith)
                requires
                    rest == state.rest * radix,
                    state.rest <= state.below * factor,
            ;
            lemma_scale_down_bound(
                Remainder {
                    rest,
                    above: state.above * radix,
                    below: state.below * radix,
                    ..state
                },
                radix,
                point - 1,
                (budget - 1) as nat,
                factor,
            );
        }
    }
}

/// At least one step is counted.
pub proof fn lemma_steps(state: Remainder, radix: nat, even: bool, count: nat)
    ensures
        spec_steps(state, radix, even, count) >= count + 1,
    decreases state.scale - state.below,
{
    let rest = (state.rest * radix) % state.scale;
    let above = state.above * radix;
    let below = state.below * radix;
    let low = spec_low_ok(rest, below, even);
    let high = spec_high_ok(rest, state.scale, above, even);
    if !low && !high && state.below < below < state.scale {
        lemma_steps(Remainder { rest, scale: state.scale, above, below }, radix, even, count + 1);
    }
}

/// A float above zero, twice over, is at least 2, below `2^1024` times
/// the unit that it is counted in, and at most `2^55` times the distance
/// to the float below it.
pub proof fn lemma_start(bits: int, kind: FloatKind)
    requires
        0 < bits < kind.spec_inf_bits(),
    ensures
        2 <= spec_start(bits, kind).rest < pow2((kind.spec_exponent_bias() + 1024) as nat),
        spec_start(bits, kind).below >= 1,
        spec_start(bits, kind).rest <= spec_start(bits, kind).below * pow2(55),
        spec_start(bits, kind).scale == pow2(kind.spec_exponent_bias() as nat),
{
    let hidden = kind.spec_hidden_bit();
    lemma2_to64();
    lemma2_to64_rest();
    // The float lies between zero and infinity.
    assert(spec_scaled(0, kind) == 0) by {
        assert(0 * pow2(spec_shift(0, kind)) == 0);
    }
    lemma_scaled_increases(0, bits, kind);
    lemma_scaled_increases(bits, kind.spec_inf_bits(), kind);
    lemma_scaled_infinity(kind);
    lemma_pow2_unfold(2099);
    lemma_pow2_unfold(278);
    lemma_pow2_increases(278, 1174);
    // The distance below is at least half the unit of the float.
    let shift = spec_shift(bits, kind);
    let before = spec_shift(bits - 1, kind);
    lemma_fundamental_div_mod(bits, hidden);
    lemma_fundamental_div_mod(bits - 1, hidden);
    let biased = bits / hidden;
    let under = (bits - 1) / hidden;
    assert(under >= biased - 1 && under >= 0 && biased >= 0) by (nonlinear_arith)
        requires
            bits == hidden * biased + bits % hidden,
            bits - 1 == hidden * under + (bits - 1) % hidden,
            0 <= bits % hidden < hidden,
            0 <= (bits - 1) % hidden < hidden,
            bits >= 1,
            hidden > 0,
    ;
    assert(shift <= before + 1);
    lemma_pow2_pos(before);
    lemma_pow2_unfold(before + 1);
    lemma_pow2_increases(shift, before + 1);
    let mantissa = spec_mantissa(bits, kind);
    assert(mantissa < pow2(53));
    lemma_pow2_adds(53, 2);
    assert(2 * (mantissa * pow2(shift)) <= pow2(before) * pow2(55)) by (nonlinear_arith)
        requires
            0 <= mantissa < pow2(53),
            0 < pow2(shift) <= 2 * pow2(before),
            pow2(55) == pow2(53) * 4,
    ;
}

/// The shortest digits of a float above zero are at most 63, and the
/// power of the radix that scales them lies between -1074 and 1025.
pub proof fn lemma_shortest_bounds(bits: int, kind: FloatKind, radix: nat)
    requires
        0 < bits < kind.spec_inf_bits(),
        2 <= radix <= 36,
    ensures
        1 <= spec_shortest(bits, kind, radix).0.len() <= 63,
        -1074 <= spec_shortest(bits, kind, radix).1 <= 1025,
{
    let start = spec_start(bits, kind);
    let even = bits % 2 == 0;
    lemma_start(bits, kind);
    lemma2_to64();
    lemma2_to64_rest();
    let bias = kind.spec_exponent_bias() as nat;
    lemma_pow2_pos(bias);
    lemma_pow2_adds(bias, 1024);
    let up = spec_scale_up(start, radix, 0);
    lemma_scale_up_bound(start, radix, 0, 1024);
    // Where the denominator was raised, no numerator is.
    lemma_pow2_adds(1, 1074);
    lemma_pow2_increases(bias, 1075);
    assert(up.0.scale <= up.0.rest * radix || up.0.scale <= up.0.rest * pow2(1074))
        by (nonlinear_arith)
        requires
            up.0.scale == pow2(bias) || up.0.scale <= up.0.rest * radix,
            pow2(bias) <= pow2(1075),
            pow2(1075) == 2 * pow2(1074),
            up.0.rest >= 2,
            pow2(1074) > 0,
    {
        lemma_pow2_pos(1074);
    }
    let down = spec_scale_down(up.0, radix, up.1);
    if up.0.scale <= up.0.rest * radix {
        assert(up.0.rest * pow2(0) == up.0.rest);
        assert(down == up);
        assert(up.0.scale <= up.0.rest * pow2(6)) by (nonlinear_arith)
            requires
                up.0.scale <= up.0.rest * radix,
                radix <= 36,
                pow2(6) == 64,
                up.0.rest >= 0,
        ;
        lemma_scale_down_bound(up.0, radix, up.1, 6, pow2(55));
    } else {
        lemma_scale_down_bound(up.0, radix, up.1, 1074, pow2(55));
    }
    // The digits.
    lemma_pow2_adds(55, 6);
    assert(down.0.scale <= down.0.below * pow2(61)) by (nonlinear_arith)
        requires
            down.0.scale <= down.0.rest * radix,
            down.0.rest <= down.0.below * pow2(55),
            radix <= 36,
            pow2(61) == pow2(55) * 64,
            down.0.below >= 0,
            pow2(55) >= 0,
    ;
    lemma_generate_len(down.0, radix, even, Seq::empty(), 61);
    lemma_steps(down.0, radix, even, 0);
}

/// Rounded to the digits asked for, digits stay at least one and get no
/// more.
pub proof fn lemma_round_digits_len(digits: Seq<u8>, max: Option<usize>, radix: nat)
    requires
        digits.len() >= 1,
    ensures
        1 <= spec_round_digits(digits, max, radix).0.len() <= digits.len(),
{
    match max {
        Some(most) => {
            if 0 < most < digits.len() {
                lemma_increment_len(digits.subrange(0, most as int), radix);
            }
        },
        None => {},
    }
}

/// The text of digits with their scientific exponent is, where the
/// exponent is one that the shortest digits of a float come with, less
/// than `FLOAT_SIZE` bytes and the digits asked for long.
pub proof fn lemma_digits_text_fits(chars: Seq<u8>, sci_exp: int, format: u128, options: Options)
    requires
        1 <= chars.len() <= 63,
        -1075 <= sci_exp <= 1025,
        2 <= spec_exponent_radix(format) <= 36,
    ensures
        spec_digits_text(chars, sci_exp, format, options).len() < FLOAT_SIZE
            + options.spec_min_digits(),
{
    let min = options.spec_min_digits() as int;
    if crate::hex::spec_uses_exponent(sci_exp, format, options) {
        let trim = options.trim_floats && !spec_has_flag(
            format,
            crate::format::NO_EXPONENT_WITHOUT_FRACTION,
        );
        lemma_number_text_len(chars, 1, options.decimal_point, min, trim);
        lemma_exponent_text_len(
            sci_exp,
            options.exponent,
            spec_has_flag(format, crate::format::REQUIRED_EXPONENT_SIGN),
            spec_exponent_radix(format) as nat,
        );
    } else if sci_exp >= 0 {
        lemma_number_text_len(chars, sci_exp + 1, options.decimal_point, min, options.trim_floats);
    } else {
        lemma_fraction_text_len(chars, -sci_exp, options.decimal_point, min);
    }
}

/// The text of a finite float in its shortest digits is, without its
/// sign, less than `FLOAT_SIZE` bytes and the digits asked for long.
pub proof fn lemma_shortest_text_fits(float: FloatParts, format: u128, options: Options)
    requires
        float.spec_wf(),
        !float.spec_is_special(),
        !float.negative,
        2 <= spec_mantissa_radix(format) <= 36,
        2 <= spec_exponent_radix(format) <= 36,
    ensures
        crate::decimal::spec_float_text(float, format, options).len() < FLOAT_SIZE
            + options.spec_min_digits(),
{
    let radix = spec_mantissa_radix(format) as nat;
    let bits = spec_bits(float);
    if bits == 0 {
        lemma_digits_text_fits(seq![48u8], 0, format, options);
    } else {
        crate::float_round_trip::lemma_bits_below_infinity(float);
        lemma_shortest_bounds(bits, float.kind, radix);
        let shortest = spec_shortest(bits, float.kind, radix);
        let rounded = spec_round_digits(shortest.0, options.max_significant_digits, radix);
        lemma_round_digits_len(shortest.0, options.max_significant_digits, radix);
        lemma_digits_text_fits(
            spec_chars(rounded.0),
            shortest.1 - 1 + (if rounded.1 {
                1int
            } else {
                0int
            }),
            format,
            options,
        );
    }
}

/// The text of every float that can be written is at most `FLOAT_SIZE`
/// bytes and the digits that the options ask for long: a buffer of that
/// length takes every float.
pub proof fn lemma_float_text_fits(float: FloatParts, format: u128, options: Options)
    requires
        float.spec_wf(),
        options.spec_is_valid(),
        spec_can_write(float, format, options),
    ensures
        spec_text(float, format, options).len() <= FLOAT_SIZE + options.spec_min_digits(),
{
    let sign = crate::format::spec_sign_text(float.negative, format);
    assert(sign.len() <= 1);
    if float.spec_is_special() {
    } else if spec_backend(format) == Backend::Binary || spec_backend(format) == Backend::Hex {
        lemma_exact_text_fits(float, format, options);
    } else {
        lemma_shortest_text_fits(FloatParts { negative: false, ..float }, format, options);
    }
}

} // verus!
