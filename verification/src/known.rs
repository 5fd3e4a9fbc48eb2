//! Texts whose reading is known: a decimal that lies between two floats,
//! and a number beyond all floats.

use crate::binary_round_trip::{lemma_exact_is_nearest, lemma_pow_of_pow2};
use crate::compact::{lemma_digits_value, spec_digits};
use crate::digit::spec_char_is_digit;
use crate::digits_text::spec_accumulate;
use crate::error::Error;
use crate::float::FloatKind;
use crate::float_round_trip::{
    lemma_exponent_read, lemma_lexed_is_parsed, lemma_mantissa_read, lemma_no_exponent_read,
    lemma_signed_text_lexed, lemma_value_is_accumulated, spec_reads_as_written,
};
use crate::format::{
    lemma_standard_format, spec_base_prefix, spec_base_suffix, spec_digit_separator,
    spec_exponent_base, spec_exponent_radix, spec_has_flag, spec_mantissa_radix, spec_sign_text,
    Section, NO_EXPONENT_NOTATION, NO_POSITIVE_EXPONENT_SIGN, REQUIRED_MANTISSA_SIGN, STANDARD,
};
use crate::lex::{
    spec_after_prefix, spec_after_suffix, spec_exponent, spec_lex, spec_mantissa,
    spec_mantissa_error, spec_match, spec_number, spec_run, spec_special, Lexed, Lexeme, Run,
};
use crate::skip::spec_section_syntax;
use crate::nearest::{
    spec_is_nearest, spec_mantissa as spec_float_mantissa, spec_scaled, spec_shift,
};
use crate::options::{Options, ParseOptions};
use crate::parse_float::{
    lemma_beyond_all_floats, lemma_pow2_increases, lemma_rounded_is_nearest,
    lemma_scaled_infinity, spec_denominator, spec_numerator, spec_parse_float, spec_rounded,
};
use vstd::arithmetic::power::{lemma_pow0, lemma_pow1, lemma_pow_adds, pow};
use vstd::arithmetic::power2::{
    lemma2_to64, lemma2_to64_rest, lemma_pow2_adds, lemma_pow2_pos, pow2,
};
use vstd::prelude::*;

verus! {

/// Whether decimals are read with `.` as the point and `e` before the
/// exponent, and no literal of a special value starts with a digit.
pub open spec fn spec_reads_decimals(read: ParseOptions) -> bool {
    &&& read.decimal_point == 46
    &&& read.exponent == 101
    &&& read.nan_string matches Some(nan) ==> nan@.len() == 0 || !spec_char_is_digit(nan@[0], 10)
    &&& read.inf_string matches Some(inf) ==> inf@.len() == 0 || !spec_char_is_digit(inf@[0], 10)
}

/// Options of writing that agree with those of reading decimals.
pub open spec fn spec_written_decimals() -> Options {
    Options {
        decimal_point: 46,
        exponent: 101,
        nan_string: None,
        inf_string: None,
        max_significant_digits: None,
        min_significant_digits: None,
        negative_exponent_break: (-5i32),
        positive_exponent_break: 9,
        trim_floats: false,
    }
}

/// What is written as decimals is read as decimals.
pub proof fn lemma_reads_decimals(read: ParseOptions)
    requires
        spec_reads_decimals(read),
    ensures
        spec_reads_as_written(STANDARD, spec_written_decimals(), read),
{
    lemma_standard_format();
}

/// The text `1e400`.
pub open spec fn spec_one_e400() -> Seq<u8> {
    seq![49u8, 101u8, 52u8, 48u8, 48u8]
}

/// A power grows with its base.
pub proof fn lemma_pow_of_larger(low: int, high: int, count: nat)
    requires
        0 <= low <= high,
    ensures
        0 <= pow(low, count) <= pow(high, count),
    decreases count,
{
    if count == 0 {
        lemma_pow0(low);
        lemma_pow0(high);
    } else {
        lemma_pow_of_larger(low, high, (count - 1) as nat);
        lemma_pow_adds(low, 1, (count - 1) as nat);
        lemma_pow_adds(high, 1, (count - 1) as nat);
        lemma_pow1(low);
        lemma_pow1(high);
        let a = pow(low, (count - 1) as nat);
        let b = pow(high, (count - 1) as nat);
        assert(0 <= low * a <= high * b) by (nonlinear_arith)
            requires
                0 <= low <= high,
                0 <= a <= b,
        ;
    }
}

/// The text `1e400` is taken apart as the number 1 with the exponent 400.
pub proof fn lemma_one_e400_lexed(read: ParseOptions, partial: bool)
    requires
        spec_reads_decimals(read),
    ensures
        spec_lex(spec_one_e400(), STANDARD, read, partial) == Ok::<Lexed, Error>(
            Lexed {
                negative: false,
                lexeme: Lexeme::Number { mantissa: 1, fraction_digits: 0, exponent: 400 },
                consumed: 5,
            },
        ),
{
    let text = spec_one_e400();
    let whole = seq![49u8];
    let none = Seq::<u8>::empty();
    lemma_standard_format();
    lemma_reads_decimals(read);
    assert(text.subrange(0, 1) =~= whole);
    assert(spec_char_is_digit(49, 10));
    assert(!spec_char_is_digit(101, 10));
    assert(!spec_char_is_digit(46, 10));
    lemma_mantissa_read(text, STANDARD, read, 0, whole, false, none);
    assert(whole + none =~= whole);
    assert(whole.drop_last() =~= none);
    assert(spec_accumulate(0, whole, 10) == 1) by {
        reveal_with_fuel(spec_accumulate, 3);
    }
    assert(spec_digits(400, 10) =~= seq![52u8, 48u8, 48u8]) by {
        reveal_with_fuel(spec_digits, 4);
    }
    assert(text.subrange(1, 5) =~= crate::binary::spec_exponent_text(400, 101, false, 10));
    lemma_exponent_read(text, STANDARD, read, 1, 0, 400);
    let mantissa = spec_mantissa(text, STANDARD, read, 0);
    assert(spec_mantissa_error(mantissa, text, STANDARD) is None);
    assert(spec_after_suffix(text, STANDARD, 5) == 5);
    assert(spec_number(text, STANDARD, read, 0) == Ok::<(Lexeme, int), Error>(
        (Lexeme::Number { mantissa: 1, fraction_digits: 0, exponent: 400 }, 5),
    ));
    assert(spec_sign_text(false, STANDARD) + text =~= text);
    lemma_signed_text_lexed(
        false,
        text,
        STANDARD,
        spec_written_decimals(),
        read,
        partial,
        Lexeme::Number { mantissa: 1, fraction_digits: 0, exponent: 400 },
    );
}

/// The text `1e400` denotes a number beyond all floats: it is read as
/// infinity where the reading is lossy, and else fails as an overflow at
/// the end of the text.
pub proof fn lemma_one_e400(read: ParseOptions, kind: FloatKind, partial: bool)
    requires
        spec_reads_decimals(read),
    ensures
        read.lossy ==> spec_parse_float(spec_one_e400(), STANDARD, read, kind, partial) == Ok::<
            (int, int),
            Error,
        >((kind.spec_inf_bits(), 5)),
        !read.lossy ==> spec_parse_float(spec_one_e400(), STANDARD, read, kind, partial) == Err::<
            (int, int),
            Error,
        >(Error::Overflow(5)),
{
    lemma_standard_format();
    lemma_one_e400_lexed(read, partial);
    let lexed = Lexed {
        negative: false,
        lexeme: Lexeme::Number { mantissa: 1, fraction_digits: 0, exponent: 400 },
        consumed: 5,
    };
    // Ten to the 400th is above two to the 1024th.
    lemma2_to64();
    lemma_pow_of_larger(8, 10, 400);
    lemma_pow_of_pow2(3, 400);
    lemma_pow2_increases(1024, 1200);
    lemma_pow2_increases(128, 1200);
    lemma_scaled_infinity(kind);
    lemma_pow2_adds(1024, 1074);
    lemma_pow2_adds(128, 149);
    lemma_pow0(10);
    let unit = pow2(crate::parse_float::spec_unit_shift(kind)) as int;
    lemma_pow2_pos(crate::parse_float::spec_unit_shift(kind));
    let power = pow(10, 400);
    let top = spec_scaled(kind.spec_inf_bits(), kind);
    let num = spec_numerator(1, 400, 10, kind);
    let den = spec_denominator(0, 400, 10, 10);
    assert(den == 1) by (nonlinear_arith)
        requires
            den == pow(10, 0) * pow(10, 0),
            pow(10, 0) == 1,
    ;
    let bound: int = match kind {
        FloatKind::Binary32 => pow2(128) as int,
        FloatKind::Binary64 => pow2(1024) as int,
    };
    assert(top == bound * unit);
    assert(top * den <= num) by (nonlinear_arith)
        requires
            top == bound * unit,
            den == 1,
            num == 1 * power * unit,
            bound <= power,
            unit > 0,
    ;
    lemma_beyond_all_floats(lexed, 1, 0, 400, 10, 10, kind, read.lossy);
}

/// The text `3.14159265358979`.
pub open spec fn spec_pi_text() -> Seq<u8> {
    seq![
        51u8, 46u8, 49u8, 52u8, 49u8, 53u8, 57u8, 50u8, 54u8, 53u8, 51u8, 53u8, 56u8, 57u8, 55u8,
        57u8,
    ]
}

/// The text `3.14159265358979` is taken apart as the number
/// 314159265358979 with 14 digits behind the point.
pub proof fn lemma_pi_lexed(read: ParseOptions, partial: bool)
    requires
        spec_reads_decimals(read),
    ensures
        spec_lex(spec_pi_text(), STANDARD, read, partial) == Ok::<Lexed, Error>(
            Lexed {
                negative: false,
                lexeme: Lexeme::Number {
                    mantissa: 314159265358979,
                    fraction_digits: 14,
                    exponent: 0,
                },
                consumed: 16,
            },
        ),
{
    let text = spec_pi_text();
    let whole = seq![51u8];
    let part = seq![
        49u8, 52u8, 49u8, 53u8, 57u8, 50u8, 54u8, 53u8, 51u8, 53u8, 56u8, 57u8, 55u8, 57u8,
    ];
    let digits = spec_digits(314159265358979, 10);
    lemma_standard_format();
    lemma_reads_decimals(read);
    assert(text.subrange(0, 1) =~= whole);
    assert(text.subrange(2, 16) =~= part);
    assert(!spec_char_is_digit(46, 10));
    assert(spec_char_is_digit(48, 10) && spec_char_is_digit(49, 10) && spec_char_is_digit(50, 10)
        && spec_char_is_digit(51, 10) && spec_char_is_digit(52, 10) && spec_char_is_digit(53, 10)
        && spec_char_is_digit(54, 10) && spec_char_is_digit(55, 10) && spec_char_is_digit(56, 10)
        && spec_char_is_digit(57, 10));
    lemma_mantissa_read(text, STANDARD, read, 0, whole, true, part);
    assert(digits =~= whole + part) by {
        reveal_with_fuel(spec_digits, 16);
    }
    lemma_digits_value(314159265358979, 10);
    lemma_value_is_accumulated(digits, 10);
    lemma_no_exponent_read(text, STANDARD, read, 14);
    let mantissa = spec_mantissa(text, STANDARD, read, 0);
    assert(spec_mantissa_error(mantissa, text, STANDARD) is None);
    assert(spec_after_suffix(text, STANDARD, 16) == 16);
    assert(spec_number(text, STANDARD, read, 0) == Ok::<(Lexeme, int), Error>(
        (Lexeme::Number { mantissa: 314159265358979, fraction_digits: 14, exponent: 0 }, 16),
    ));
    assert(spec_sign_text(false, STANDARD) + text =~= text);
    lemma_signed_text_lexed(
        false,
        text,
        STANDARD,
        spec_written_decimals(),
        read,
        partial,
        Lexeme::Number { mantissa: 314159265358979, fraction_digits: 14, exponent: 0 },
    );
}

/// The number 3.14159265358979 lies nearer to the float with the bits
/// `0x400921FB54442D11` than to the middle between it and either of its
/// neighbours.
pub proof fn lemma_pi_rounded()
    ensures
        spec_rounded(314159265358979, 14, 0, 10, 10, FloatKind::Binary64)
            == 0x4009_21FB_5444_2D11,
{
    let kind = FloatKind::Binary64;
    let bits: int = 0x4009_21FB_5444_2D11;
    let mantissa: int = 0x19_21FB_5444_2D11;
    lemma2_to64();
    lemma2_to64_rest();
    assert(bits / 0x10_0000_0000_0000 == 1024 && bits % 0x10_0000_0000_0000 == 0x9_21FB_5444_2D11);
    assert((bits - 1) / 0x10_0000_0000_0000 == 1024 && (bits - 1) % 0x10_0000_0000_0000
        == 0x9_21FB_5444_2D10);
    assert((bits + 1) / 0x10_0000_0000_0000 == 1024 && (bits + 1) % 0x10_0000_0000_0000
        == 0x9_21FB_5444_2D12);
    assert(spec_shift(bits, kind) == 1023 && spec_shift(bits - 1, kind) == 1023 && spec_shift(
        bits + 1,
        kind,
    ) == 1023);
    assert(spec_float_mantissa(bits, kind) == mantissa);
    assert(spec_float_mantissa(bits - 1, kind) == mantissa - 1);
    assert(spec_float_mantissa(bits + 1, kind) == mantissa + 1);
    let scale = pow2(1023) as int;
    lemma_pow2_pos(1023);
    lemma_pow2_adds(1023, 51);
    // The denominator is ten to the 14th.
    lemma_pow0(10);
    lemma_pow1(10);
    lemma_pow_adds(10, 1, 1);
    assert(pow(10, 2) == 100);
    lemma_pow_adds(10, 2, 2);
    assert(pow(10, 4) == 10_000);
    lemma_pow_adds(10, 4, 4);
    assert(pow(10, 8) == 100_000_000);
    lemma_pow_adds(10, 8, 4);
    assert(pow(10, 12) == 1_000_000_000_000);
    lemma_pow_adds(10, 12, 2);
    assert(pow(10, 14) == 100_000_000_000_000);
    let num = spec_numerator(314159265358979, 0, 10, kind);
    let den = spec_denominator(14, 0, 10, 10);
    assert(den == 100_000_000_000_000) by (nonlinear_arith)
        requires
            den == pow(10, 14) * pow(10, 0),
            pow(10, 14) == 100_000_000_000_000,
            pow(10, 0) == 1,
    ;
    assert(num == 314159265358979 * 0x8_0000_0000_0000 * scale) by (nonlinear_arith)
        requires
            num == 314159265358979 * pow(10, 0) * pow2(1074),
            pow(10, 0) == 1,
            pow2(1074) == scale * 0x8_0000_0000_0000,
    ;
    let here = spec_scaled(bits, kind);
    let under = spec_scaled(bits - 1, kind);
    let over = spec_scaled(bits + 1, kind);
    assert((under + here) * den < 2 * num) by (nonlinear_arith)
        requires
            under == (mantissa - 1) * scale,
            here == mantissa * scale,
            den == 100_000_000_000_000,
            num == 314159265358979 * 0x8_0000_0000_0000 * scale,
            mantissa == 0x19_21FB_5444_2D11,
            scale > 0,
    ;
    assert(2 * num < (here + over) * den) by (nonlinear_arith)
        requires
            over == (mantissa + 1) * scale,
            here == mantissa * scale,
            den == 100_000_000_000_000,
            num == 314159265358979 * 0x8_0000_0000_0000 * scale,
            mantissa == 0x19_21FB_5444_2D11,
            scale > 0,
    ;
    assert(spec_is_nearest(bits, num, den, kind));
    lemma_rounded_is_nearest(314159265358979, 14, 0, 10, 10, kind);
}

/// The text `3.14159265358979` is read as the float with the bits
/// `0x400921FB54442D11`, the one nearest to the number.
pub proof fn lemma_pi_read(read: ParseOptions, partial: bool)
    requires
        spec_reads_decimals(read),
    ensures
        spec_parse_float(spec_pi_text(), STANDARD, read, FloatKind::Binary64, partial) == Ok::<
            (int, int),
            Error,
        >((0x4009_21FB_5444_2D11, 16)),
{
    lemma_standard_format();
    lemma_pi_lexed(read, partial);
    lemma_pi_rounded();
    lemma_lexed_is_parsed(
        spec_pi_text(),
        STANDARD,
        read,
        FloatKind::Binary64,
        partial,
        false,
        314159265358979,
        14,
        0,
        0x4009_21FB_5444_2D11,
    );
}

/// The text `0x1.8p+1`.
pub open spec fn spec_hex_three() -> Seq<u8> {
    seq![48u8, 120u8, 49u8, 46u8, 56u8, 112u8, 43u8, 49u8]
}

/// Whether a format is one of hexadecimal floats as C spells them: digits
/// of radix 16 behind the prefix `0x`, an exponent of decimal digits
/// that raises 2, no separator and no suffix, and neither a sign of the
/// mantissa required nor a `+` before the exponent or an exponent itself
/// forbidden.
pub open spec fn spec_is_c_hex_format(format: u128) -> bool {
    &&& spec_mantissa_radix(format) == 16
    &&& spec_exponent_base(format) == 2
    &&& spec_exponent_radix(format) == 10
    &&& spec_digit_separator(format) == 0
    &&& spec_base_prefix(format) == 120
    &&& spec_base_suffix(format) == 0
    &&& !spec_has_flag(format, REQUIRED_MANTISSA_SIGN)
    &&& !spec_has_flag(format, NO_POSITIVE_EXPONENT_SIGN)
    &&& !spec_has_flag(format, NO_EXPONENT_NOTATION)
}

/// Whether hexadecimal floats are read with `.` as the point and `p`
/// before the exponent, and no literal of a special value starts with
/// `0`.
pub open spec fn spec_reads_c_hex(read: ParseOptions) -> bool {
    &&& read.decimal_point == 46
    &&& read.exponent == 112
    &&& read.nan_string matches Some(nan) ==> nan@.len() == 0 || nan@[0] != 48
    &&& read.inf_string matches Some(inf) ==> inf@.len() == 0 || inf@[0] != 48
}

/// The text `0x1.8p+1` is taken apart as the number 0x18 with one digit
/// behind the point and the exponent 1.
pub proof fn lemma_hex_three_lexed(format: u128, read: ParseOptions, partial: bool)
    requires
        spec_is_c_hex_format(format),
        spec_reads_c_hex(read),
    ensures
        spec_lex(spec_hex_three(), format, read, partial) == Ok::<Lexed, Error>(
            Lexed {
                negative: false,
                lexeme: Lexeme::Number { mantissa: 24, fraction_digits: 1, exponent: 1 },
                consumed: 8,
            },
        ),
{
    let text = spec_hex_three();
    let integer = spec_section_syntax(format, Section::Integer);
    let fraction = spec_section_syntax(format, Section::Fraction);
    let exponent = spec_section_syntax(format, Section::Exponent);
    let special = spec_section_syntax(format, Section::Special);
    // The sign and the special values.
    assert(crate::parse::spec_sign(text, format, true) == Ok::<(bool, int), Error>((false, 0)));
    assert(spec_special(text, format, read, 0) is None) by {
        reveal_with_fuel(spec_match, 2);
    }
    // The mantissa.
    assert(spec_after_prefix(text, format, 0) == 2);
    assert(spec_run(text, integer, 2, 0, 0) == (Run { value: 1, count: 1, at: 3 })) by {
        reveal_with_fuel(spec_run, 3);
    }
    assert(spec_run(text, fraction, 4, 1, 0) == (Run { value: 24, count: 1, at: 5 })) by {
        reveal_with_fuel(spec_run, 3);
    }
    let mantissa = spec_mantissa(text, format, read, 0);
    assert(mantissa.value == 24 && mantissa.whole_count == 1 && mantissa.part_count == 1
        && mantissa.at == 5);
    assert(spec_mantissa_error(mantissa, text, format) is None);
    // The exponent.
    assert(spec_run(text, exponent, 7, 0, 0) == (Run { value: 1, count: 1, at: 8 })) by {
        reveal_with_fuel(spec_run, 3);
    }
    assert(spec_exponent(text, format, read, 5, 1) == Ok::<(int, int), Error>((1, 8)));
    assert(spec_after_suffix(text, format, 8) == 8);
    assert(spec_number(text, format, read, 0) == Ok::<(Lexeme, int), Error>(
        (Lexeme::Number { mantissa: 24, fraction_digits: 1, exponent: 1 }, 8),
    ));
}

/// The text `0x1.8p+1` is read as the float 3, which it denotes exactly.
pub proof fn lemma_hex_three_read(format: u128, read: ParseOptions, partial: bool)
    requires
        spec_is_c_hex_format(format),
        spec_reads_c_hex(read),
    ensures
        spec_parse_float(spec_hex_three(), format, read, FloatKind::Binary64, partial) == Ok::<
            (int, int),
            Error,
        >((0x4008_0000_0000_0000, 8)),
{
    let kind = FloatKind::Binary64;
    let bits: int = 0x4008_0000_0000_0000;
    lemma_hex_three_lexed(format, read, partial);
    lemma2_to64();
    lemma2_to64_rest();
    assert(bits / 0x10_0000_0000_0000 == 1024 && bits % 0x10_0000_0000_0000
        == 0x8_0000_0000_0000);
    assert(spec_shift(bits, kind) == 1023);
    assert(spec_float_mantissa(bits, kind) == 0x18_0000_0000_0000);
    let scale = pow2(1023) as int;
    lemma_pow2_pos(1023);
    lemma_pow2_adds(1023, 51);
    lemma_pow0(2);
    lemma_pow1(2);
    lemma_pow1(16);
    let num = spec_numerator(24, 1, 2, kind);
    let den = spec_denominator(1, 1, 16, 2);
    assert(den == 16) by (nonlinear_arith)
        requires
            den == pow(16, 1) * pow(2, 0),
            pow(16, 1) == 16,
            pow(2, 0) == 1,
    ;
    assert(num == spec_scaled(bits, kind) * 16) by (nonlinear_arith)
        requires
            num == 24 * pow(2, 1) * pow2(1074),
            pow(2, 1) == 2,
            pow2(1074) == scale * 0x8_0000_0000_0000,
            spec_scaled(bits, kind) == 0x18_0000_0000_0000 * scale,
    ;
    lemma_exact_is_nearest(bits, 16, kind);
    lemma_rounded_is_nearest(24, 1, 1, 16, 2, kind);
}

} // verus!
