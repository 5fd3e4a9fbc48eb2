//! The float writer for formats whose mantissa radix is a power of the
//! exponent base, as in hexadecimal floats: the mantissa's digits are of
//! radix 16 and the exponent counts powers of 2.
//!
//! A power of such a radix is a power of the exponent base, so the digits
//! need no rounding beyond what the options ask for, and the exponent is
//! the number of digits before the point, counted in powers of the base.

use crate::binary::{
    aligned_digits, fast_ceildiv, fast_log2, lemma_log2_of_radix, min_digits, spec_aligned_digits,
    spec_bit_length, spec_ceildiv, spec_exponent_text, spec_is_power_of_two_radix, spec_log2,
    spec_negative_text, spec_number_text, spec_positive_text, spec_truncate_and_round,
    truncate_and_round, write_exponent, write_float_negative_exponent,
    write_float_positive_exponent, write_number,
};
use crate::buffer::{lemma_written_append, spec_written};
use crate::float::FloatParts;
use crate::format::{
    exponent_base, exponent_radix, has_flag, mantissa_radix, spec_exponent_base,
    spec_exponent_radix, spec_has_flag, spec_is_valid, spec_mantissa_radix, NO_EXPONENT_NOTATION,
    NO_EXPONENT_WITHOUT_FRACTION, REQUIRED_EXPONENT_NOTATION, REQUIRED_EXPONENT_SIGN,
};
use crate::options::Options;
use vstd::arithmetic::div_mod::lemma_fundamental_div_mod;
use vstd::prelude::*;

verus! {

/// A scientific exponent that counts bits, as one that counts powers of
/// the exponent base: the whole digits of `bits_per_digit` bits that it
/// holds, rounded towards minus infinity, in units of `bits_per_base` bits.
pub open spec fn spec_scale_sci_exp(sci_exp: int, bits_per_digit: int, bits_per_base: int) -> int {
    if sci_exp < 0 {
        -(spec_ceildiv(-sci_exp, bits_per_digit) * bits_per_digit / bits_per_base)
    } else {
        sci_exp / bits_per_digit * bits_per_digit / bits_per_base
    }
}

/// Where a digit is a whole number of units of the base, the scaled
/// exponent is the number of whole digits, rounded towards minus infinity,
/// times the units in a digit.
pub proof fn lemma_scale_sci_exp(sci_exp: int, bits_per_digit: int, bits_per_base: int)
    requires
        0 < bits_per_base,
        0 < bits_per_digit,
        bits_per_digit % bits_per_base == 0,
    ensures
        spec_scale_sci_exp(sci_exp, bits_per_digit, bits_per_base) == (sci_exp / bits_per_digit)
            * (bits_per_digit / bits_per_base),
{
    let b = bits_per_digit;
    let c = bits_per_base;
    let k = b / c;
    lemma_fundamental_div_mod(b, c);
    assert(b == c * k);
    if sci_exp < 0 {
        let up = spec_ceildiv(-sci_exp, b);
        lemma_fundamental_div_mod(-sci_exp + b - 1, b);
        lemma_fundamental_div_mod(sci_exp, b);
        let q = sci_exp / b;
        let r = sci_exp % b;
        let s = (-sci_exp + b - 1) % b;
        assert(up == -q) by (nonlinear_arith)
            requires
                -sci_exp + b - 1 == b * up + s,
                sci_exp == b * q + r,
                0 <= s < b,
                0 <= r < b,
        ;
        assert(up * b == c * (up * k)) by (nonlinear_arith)
            requires
                b == c * k,
        ;
        vstd::arithmetic::div_mod::lemma_fundamental_div_mod_converse(up * b, c, up * k, 0);
        assert(-(up * k) == q * k) by (nonlinear_arith)
            requires
                up == -q,
        ;
    } else {
        let q = sci_exp / b;
        assert(q * b == c * (q * k)) by (nonlinear_arith)
            requires
                b == c * k,
        ;
        vstd::arithmetic::div_mod::lemma_fundamental_div_mod_converse(q * b, c, q * k, 0);
    }
}

/// Scales a scientific exponent that counts bits to one that counts powers
/// of the exponent base.
pub fn scale_sci_exp(sci_exp: i32, bits_per_digit: i32, bits_per_base: i32) -> (scaled: i32)
    requires
        0 < bits_per_digit <= 32,
        0 < bits_per_base,
        i32::MIN + 32 < sci_exp,
    ensures
        scaled == spec_scale_sci_exp(sci_exp as int, bits_per_digit as int, bits_per_base as int),
        sci_exp < 0 ==> sci_exp - 32 < scaled <= 0,
        sci_exp >= 0 ==> 0 <= scaled <= sci_exp,
{
    if sci_exp < 0 {
        let neg_sci_exp = -sci_exp;
        let floor = fast_ceildiv(neg_sci_exp, bits_per_digit);
        proof {
            let b = bits_per_digit as int;
            lemma_fundamental_div_mod(neg_sci_exp + b - 1, b);
            assert(0 <= floor * b <= neg_sci_exp + b - 1) by (nonlinear_arith)
                requires
                    neg_sci_exp + b - 1 == b * floor + (neg_sci_exp + b - 1) % b,
                    0 <= (neg_sci_exp + b - 1) % b,
                    0 <= floor,
                    b > 0,
            ;
            assert(0 <= (floor * b) / (bits_per_base as int) <= floor * b) by (nonlinear_arith)
                requires
                    0 <= floor * b,
                    bits_per_base > 0,
            ;
        }
        -(floor * bits_per_digit / bits_per_base)
    } else {
        let floor = sci_exp / bits_per_digit;
        proof {
            let b = bits_per_digit as int;
            lemma_fundamental_div_mod(sci_exp as int, b);
            assert(0 <= floor * b <= sci_exp) by (nonlinear_arith)
                requires
                    sci_exp == b * floor + (sci_exp as int) % b,
                    0 <= (sci_exp as int) % b,
                    0 <= floor,
                    b > 0,
            ;
            assert(0 <= (floor * b) / (bits_per_base as int) <= floor * b) by (nonlinear_arith)
                requires
                    0 <= floor * b,
                    bits_per_base > 0,
            ;
        }
        floor * bits_per_digit / bits_per_base
    }
}

/// The text of a float in scientific notation: one digit, the point and
/// the other digits, then the exponent in powers of the exponent base. A
/// float of one digit is written without `.0` where floats are trimmed and
/// the format lets an exponent follow a mantissa without a fraction.
pub open spec fn spec_scientific_text(
    mantissa: nat,
    exp: int,
    sci_exp: int,
    format: u128,
    options: Options,
) -> Seq<u8> {
    let radix = spec_mantissa_radix(format);
    spec_number_text(
        spec_aligned_digits(mantissa, exp, radix),
        1,
        options.decimal_point,
        options.spec_min_digits() as int,
        options.trim_floats && !spec_has_flag(format, NO_EXPONENT_WITHOUT_FRACTION),
    ) + spec_exponent_text(
        spec_scale_sci_exp(
            sci_exp,
            spec_log2(radix as nat) as int,
            spec_log2(spec_exponent_base(format) as nat) as int,
        ),
        options.exponent,
        spec_has_flag(format, REQUIRED_EXPONENT_SIGN),
        spec_exponent_radix(format) as nat,
    )
}

/// Writes a float in scientific notation at the start of `bytes` and
/// returns the length of the text. The mantissa must have been rounded to
/// the digits that the options allow.
pub fn write_float_scientific<const FORMAT: u128>(
    mantissa: u64,
    exp: i32,
    sci_exp: i32,
    bytes: &mut [u8],
    options: &Options,
) -> (count: usize)
    requires
        spec_is_power_of_two_radix(spec_mantissa_radix(FORMAT)),
        spec_is_power_of_two_radix(spec_exponent_base(FORMAT)),
        spec_log2(spec_mantissa_radix(FORMAT) as nat) % spec_log2(
            spec_exponent_base(FORMAT) as nat,
        ) == 0,
        2 <= spec_exponent_radix(FORMAT) <= 36,
        mantissa <= 0x800_0000_0000_0000,
        exp > i32::MIN,
        i32::MIN + 32 < sci_exp,
        old(bytes)@.len() >= spec_scientific_text(
            mantissa as nat,
            exp as int,
            sci_exp as int,
            FORMAT,
            *options,
        ).len(),
    ensures
        count == spec_scientific_text(
            mantissa as nat,
            exp as int,
            sci_exp as int,
            FORMAT,
            *options,
        ).len(),
        final(bytes)@ == spec_written(
            old(bytes)@,
            spec_scientific_text(mantissa as nat, exp as int, sci_exp as int, FORMAT, *options),
        ),
{
    let radix = mantissa_radix(FORMAT);
    let base = exponent_base(FORMAT);
    proof {
        lemma_log2_of_radix(radix);
        lemma_log2_of_radix(base);
    }
    let bits_per_digit = fast_log2(radix);
    let bits_per_base = fast_log2(base);
    let ghost before = bytes@;
    let (scratch, start) = aligned_digits(mantissa, exp, radix);
    let digits = vstd::slice::slice_subrange(scratch.as_slice(), start, 128);
    let trim = options.trim_floats && !has_flag(FORMAT, NO_EXPONENT_WITHOUT_FRACTION);
    let min = min_digits(options);
    let ghost number = spec_number_text(digits@, 1, options.decimal_point, min as int, trim);
    let scaled_sci_exp = scale_sci_exp(sci_exp, bits_per_digit, bits_per_base);
    let ghost exponent = spec_exponent_text(
        scaled_sci_exp as int,
        options.exponent,
        spec_has_flag(FORMAT, REQUIRED_EXPONENT_SIGN),
        spec_exponent_radix(FORMAT) as nat,
    );
    let cursor = write_number(bytes, 0, digits, 1, options.decimal_point, min, trim);
    let end = write_exponent(
        bytes,
        cursor,
        scaled_sci_exp,
        options.exponent,
        has_flag(FORMAT, REQUIRED_EXPONENT_SIGN),
        exponent_radix(FORMAT),
    );
    proof {
        lemma_written_append(before, 0, number, exponent);
    }
    end
}

/// Whether a format writes its mantissa in a radix that is a power of its
/// exponent base and above it: radix 4, 8, 16 or 32 over base 2, or radix
/// 16 over base 4.
pub open spec fn spec_is_hex_format(format: u128) -> bool {
    let radix = spec_mantissa_radix(format);
    let base = spec_exponent_base(format);
    ||| (radix == 4 || radix == 8 || radix == 16 || radix == 32) && base == 2
    ||| radix == 16 && base == 4
}

/// Whether a float with the scientific exponent `sci_exp`, counted in
/// bits, is written in scientific notation: where the format asks for an
/// exponent or the exponent lies beyond one of the options' breaks, unless
/// the format has no exponent.
pub open spec fn spec_uses_exponent(sci_exp: int, format: u128, options: Options) -> bool {
    &&& !spec_has_flag(format, NO_EXPONENT_NOTATION)
    &&& {
        ||| spec_has_flag(format, REQUIRED_EXPONENT_NOTATION)
        ||| sci_exp < options.negative_exponent_break
        ||| sci_exp > options.positive_exponent_break
    }
}

/// The scientific exponent of a mantissa scaled by `2^exp`, counted in
/// bits: the place of the mantissa's highest bit, and 0 for zero.
pub open spec fn spec_sci_exp(mantissa: nat, exp: int) -> int {
    if mantissa == 0 {
        0
    } else {
        exp + spec_bit_length(mantissa) - 1
    }
}

/// The text of the finite float `mantissa * 2^exp`, without its sign. The
/// mantissa is first rounded to the digits that the options allow.
pub open spec fn spec_float_text(mantissa: nat, exp: int, format: u128, options: Options) -> Seq<
    u8,
> {
    let radix = spec_mantissa_radix(format);
    let rounded = spec_truncate_and_round(
        mantissa,
        exp,
        spec_log2(radix as nat),
        options.max_significant_digits,
    );
    let sci_exp = spec_sci_exp(rounded, exp);
    if spec_uses_exponent(sci_exp, format, options) {
        spec_scientific_text(rounded, exp, sci_exp, format, options)
    } else if sci_exp >= 0 {
        spec_positive_text(rounded, exp, sci_exp, radix, options)
    } else {
        spec_negative_text(rounded, exp, sci_exp, radix, options)
    }
}

/// The bits of a digit of a format of hexadecimal floats are a whole
/// multiple of the bits of its exponent base, and both its radix and its
/// base are powers of two.
pub proof fn lemma_hex_format(format: u128)
    requires
        spec_is_hex_format(format),
    ensures
        spec_is_power_of_two_radix(spec_mantissa_radix(format)),
        spec_is_power_of_two_radix(spec_exponent_base(format)),
        spec_log2(spec_mantissa_radix(format) as nat) % spec_log2(
            spec_exponent_base(format) as nat,
        ) == 0,
{
    lemma_log2_of_radix(spec_mantissa_radix(format));
    lemma_log2_of_radix(spec_exponent_base(format));
    let b = spec_log2(spec_mantissa_radix(format) as nat) as int;
    let c = spec_log2(spec_exponent_base(format) as nat) as int;
    if c == 1 {
        assert(b % 1 == 0);
    } else {
        assert(b == 4 && c == 2);
        assert(4int % 2 == 0);
    }
}

/// Writes a finite float that is not negative by the digits of its
/// mantissa, in a radix that is a power of two over an exponent base that
/// the radix is a power of, at the start of `bytes`, and returns the
/// length of the text.
pub fn write_float_digits<const FORMAT: u128>(
    float: FloatParts,
    bytes: &mut [u8],
    options: &Options,
) -> (count: usize)
    requires
        float.spec_wf(),
        !float.spec_is_special(),
        !float.negative,
        spec_is_power_of_two_radix(spec_mantissa_radix(FORMAT)),
        spec_is_power_of_two_radix(spec_exponent_base(FORMAT)),
        spec_log2(spec_mantissa_radix(FORMAT) as nat) % spec_log2(
            spec_exponent_base(FORMAT) as nat,
        ) == 0,
        2 <= spec_exponent_radix(FORMAT) <= 36,
        options.max_significant_digits matches Some(max) ==> max > 0,
        old(bytes)@.len() >= spec_float_text(
            float.spec_mantissa() as nat,
            float.spec_exponent(),
            FORMAT,
            *options,
        ).len(),
    ensures
        count == spec_float_text(
            float.spec_mantissa() as nat,
            float.spec_exponent(),
            FORMAT,
            *options,
        ).len(),
        final(bytes)@ == spec_written(
            old(bytes)@,
            spec_float_text(float.spec_mantissa() as nat, float.spec_exponent(), FORMAT, *options),
        ),
{
    let radix = mantissa_radix(FORMAT);
    let (mantissa, mantissa_bits) = truncate_and_round(
        float.mantissa(),
        float.exponent(),
        radix,
        options,
    );
    let exp = float.exponent();
    let mut sci_exp = exp + mantissa_bits as i32 - 1;
    if mantissa == 0 {
        sci_exp = 0;
    }
    if !has_flag(FORMAT, NO_EXPONENT_NOTATION) && (has_flag(FORMAT, REQUIRED_EXPONENT_NOTATION)
        || sci_exp < options.negative_exponent_break || sci_exp
        > options.positive_exponent_break) {
        write_float_scientific::<FORMAT>(mantissa, exp, sci_exp, bytes, options)
    } else if sci_exp >= 0 {
        write_float_positive_exponent::<FORMAT>(mantissa, exp, sci_exp, bytes, options)
    } else {
        write_float_negative_exponent::<FORMAT>(mantissa, exp, sci_exp, bytes, options)
    }
}

/// Writes a finite float that is not negative at the start of `bytes` and
/// returns the length of the text. The format is a valid one of
/// hexadecimal floats: its radix is 4, 8, 16 or 32 over the exponent base
/// 2, or 16 over 4.
pub fn write_float<const FORMAT: u128>(float: FloatParts, bytes: &mut [u8], options: &Options) -> (count:
    usize)
    requires
        float.spec_wf(),
        !float.spec_is_special(),
        !float.negative,
        spec_is_valid(FORMAT),
        spec_is_hex_format(FORMAT),
        options.max_significant_digits matches Some(max) ==> max > 0,
        old(bytes)@.len() >= spec_float_text(
            float.spec_mantissa() as nat,
            float.spec_exponent(),
            FORMAT,
            *options,
        ).len(),
    ensures
        count == spec_float_text(
            float.spec_mantissa() as nat,
            float.spec_exponent(),
            FORMAT,
            *options,
        ).len(),
        final(bytes)@ == spec_written(
            old(bytes)@,
            spec_float_text(float.spec_mantissa() as nat, float.spec_exponent(), FORMAT, *options),
        ),
{
    proof {
        lemma_hex_format(FORMAT);
    }
    write_float_digits::<FORMAT>(float, bytes, options)
}

} // verus!
