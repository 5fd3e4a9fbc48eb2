//! A float that was written by its shortest digits reads back as itself.

use crate::binary::{spec_exponent_text, spec_fraction_text, spec_number_text};
use crate::compact::{lemma_digits_shape, lemma_digits_value, spec_digits, spec_digits_value};
use crate::decimal::{spec_chars, spec_digits_text, spec_values};
use crate::digit::spec_char_is_digit;
use crate::digits_text::{
    lemma_accumulate_concat, lemma_fraction_text_parts, lemma_fraction_text_value,
    lemma_number_text_parts, lemma_number_text_value, lemma_run_ends, lemma_run_over,
    spec_accumulate, spec_all_chars, spec_fraction_part, spec_text_part, spec_text_pointed,
    spec_text_whole,
};
use crate::error::Error;
use crate::format::{
    spec_base_prefix, spec_base_suffix, spec_digit_separator, spec_exponent_radix, spec_has_flag,
    spec_is_valid, spec_mantissa_radix, Section, NO_EXPONENT_NOTATION, NO_EXPONENT_WITHOUT_FRACTION,
    REQUIRED_EXPONENT_NOTATION, REQUIRED_EXPONENT_SIGN,
};
use crate::iterator::spec_peek_cursor;
use crate::lex::{
    spec_after_prefix, spec_exponent, spec_lex, spec_mantissa, spec_number, spec_run,
    spec_same_byte, Lexed, Lexeme, Mantissa, Run,
};
use crate::float::{FloatParts, RawFloat};
use crate::format::spec_exponent_base;
use crate::options::Options;
use vstd::arithmetic::power::{lemma_pow_positive, pow};
use vstd::arithmetic::power2::pow2;
use crate::options::ParseOptions;
use crate::skip::spec_section_syntax;
use vstd::prelude::*;

verus! {

/// The number that digit characters denote is what they add to zero.
pub proof fn lemma_value_is_accumulated(chars: Seq<u8>, radix: nat)
    ensures
        spec_digits_value(chars, radix) == spec_accumulate(0, chars, radix),
    decreases chars.len(),
{
    if chars.len() > 0 {
        lemma_value_is_accumulated(chars.drop_last(), radix);
    }
}

/// The mantissa that a cursor without separators reads where digits, a
/// point and more digits stand: the number that all the digits denote
/// together, and their counts.
pub proof fn lemma_mantissa_read(
    buffer: Seq<u8>,
    format: u128,
    options: ParseOptions,
    start: int,
    whole: Seq<u8>,
    pointed: bool,
    part: Seq<u8>,
)
    requires
        spec_digit_separator(format) == 0,
        spec_base_prefix(format) == 0,
        0 <= start,
        start + whole.len() + (if pointed {
            1 + part.len()
        } else {
            0
        }) <= buffer.len(),
        buffer.subrange(start, start + whole.len()) == whole,
        spec_all_chars(whole, spec_mantissa_radix(format) as nat),
        spec_all_chars(part, spec_mantissa_radix(format) as nat),
        !spec_char_is_digit(options.decimal_point, spec_mantissa_radix(format) as int),
        pointed ==> buffer[start + whole.len()] == options.decimal_point && buffer.subrange(
            start + whole.len() + 1,
            start + whole.len() + 1 + part.len(),
        ) == part,
        !pointed ==> part.len() == 0,
        ({
            let end = start + whole.len() + (if pointed {
                1 + part.len()
            } else {
                0
            });
            end < buffer.len() ==> !spec_char_is_digit(
                buffer[end],
                spec_mantissa_radix(format) as int,
            ) && (!pointed ==> buffer[end] != options.decimal_point)
        }),
    ensures
        spec_mantissa(buffer, format, options, start) == (Mantissa {
            value: spec_accumulate(0, whole + part, spec_mantissa_radix(format) as nat),
            whole_count: whole.len(),
            part_count: part.len(),
            pointed,
            begin: start,
            at: start + whole.len() + (if pointed {
                1 + part.len()
            } else {
                0
            }),
        }),
{
    let radix = spec_mantissa_radix(format) as nat;
    let integer = spec_section_syntax(format, Section::Integer);
    let fraction = spec_section_syntax(format, Section::Fraction);
    let middle = start + whole.len();
    assert(spec_after_prefix(buffer, format, start) == start);
    lemma_run_over(buffer, integer, start, middle, 0, 0);
    let read = spec_accumulate(0, whole, radix);
    lemma_run_ends(buffer, integer, middle, read, whole.len());
    lemma_accumulate_concat(0, whole, part, radix);
    if pointed {
        let end = middle + 1 + part.len();
        assert(spec_peek_cursor(buffer, fraction, middle + 1) == middle + 1);
        lemma_run_over(buffer, fraction, middle + 1, end, read, 0);
        lemma_run_ends(
            buffer,
            fraction,
            end,
            spec_accumulate(read, part, radix),
            part.len(),
        );
    } else {
        assert(whole + part == whole);
    }
}

/// The exponent that a cursor without separators reads where the text of
/// an exponent stands at the end of the input.
pub proof fn lemma_exponent_read(
    buffer: Seq<u8>,
    format: u128,
    options: ParseOptions,
    at: int,
    fraction_digits: nat,
    exponent: int,
)
    requires
        spec_is_valid(format),
        spec_digit_separator(format) == 0,
        !spec_has_flag(format, NO_EXPONENT_NOTATION),
        spec_has_flag(format, NO_EXPONENT_WITHOUT_FRACTION) ==> fraction_digits > 0,
        0 <= at <= buffer.len(),
        buffer.subrange(at, buffer.len() as int) == spec_exponent_text(
            exponent,
            options.exponent,
            spec_has_flag(format, REQUIRED_EXPONENT_SIGN),
            spec_exponent_radix(format) as nat,
        ),
    ensures
        spec_exponent(buffer, format, options, at, fraction_digits) == Ok::<(int, int), Error>(
            (exponent, buffer.len() as int),
        ),
{
    let syntax = spec_section_syntax(format, Section::Exponent);
    let radix = spec_exponent_radix(format) as nat;
    let sign = spec_has_flag(format, REQUIRED_EXPONENT_SIGN);
    let text = spec_exponent_text(exponent, options.exponent, sign, radix);
    let size: nat = if exponent < 0 {
        (-exponent) as nat
    } else {
        exponent as nat
    };
    let digits = spec_digits(size, radix);
    let len = buffer.len() as int;
    lemma_digits_shape(size, radix);
    lemma_digits_value(size, radix);
    lemma_value_is_accumulated(digits, radix);
    let signed: int = if exponent < 0 || sign {
        1
    } else {
        0
    };
    assert(text.len() == 1 + signed + digits.len());
    assert(len == at + 1 + signed + digits.len());
    assert(buffer[at] == text[0]);
    assert(text[0] == options.exponent);
    assert(spec_same_byte(buffer[at], options.exponent, false));
    assert(spec_peek_cursor(buffer, syntax, at + 1) == at + 1);
    assert(buffer[at + 1] == text[1]);
    let first = at + 1 + signed;
    assert(spec_peek_cursor(buffer, syntax, at + 2) == at + 2);
    let tail = buffer.subrange(at, len);
    assert forall|i: int| 0 <= i < digits.len() implies buffer[first + i] == digits[i] by {
        assert(buffer[first + i] == tail[1 + signed + i]);
        assert(text[1 + signed + i] == digits[i]);
    }
    assert(buffer.subrange(first, len) =~= digits);
    assert(spec_all_chars(digits, radix));
    lemma_run_over(buffer, syntax, first, len, 0, 0);
    lemma_run_ends(buffer, syntax, len, size, digits.len());
    assert(spec_run(buffer, syntax, first, 0, 0) == (Run {
        value: size,
        count: digits.len(),
        at: len,
    }));
    if signed == 0 {
        // The first digit is no sign.
        assert(buffer[at + 1] == digits[0]);
        assert(spec_char_is_digit(digits[0], radix as int));
    }
}

/// Where the input ends behind the mantissa, the exponent is zero.
pub proof fn lemma_no_exponent_read(
    buffer: Seq<u8>,
    format: u128,
    options: ParseOptions,
    fraction_digits: nat,
)
    requires
        !spec_has_flag(format, REQUIRED_EXPONENT_NOTATION),
    ensures
        spec_exponent(buffer, format, options, buffer.len() as int, fraction_digits) == Ok::<
            (int, int),
            Error,
        >((0, buffer.len() as int)),
{
}

/// Whether what is written with the options `write` in a format is read
/// with the options `read` as it was meant: the format has no separator,
/// base prefix or base suffix and allows zeros before the point, both
/// options have the same point and exponent character, which are two
/// bytes that are neither digits of the radix nor signs, no special
/// literal starts with a digit of the radix, and no digit is rounded off.
pub open spec fn spec_reads_as_written(format: u128, write: Options, read: ParseOptions) -> bool {
    let radix = spec_mantissa_radix(format) as int;
    &&& spec_is_valid(format)
    &&& spec_digit_separator(format) == 0
    &&& spec_base_prefix(format) == 0
    &&& spec_base_suffix(format) == 0
    &&& !spec_has_flag(format, crate::format::NO_FLOAT_LEADING_ZEROS)
    &&& read.decimal_point == write.decimal_point
    &&& read.exponent == write.exponent
    &&& !spec_char_is_digit(write.decimal_point, radix)
    &&& !spec_char_is_digit(write.exponent, radix)
    &&& write.decimal_point != write.exponent
    &&& write.decimal_point != 43 && write.decimal_point != 45
    &&& write.exponent != 43 && write.exponent != 45
    &&& write.max_significant_digits is None
    &&& read.nan_string matches Some(nan) ==> nan@.len() == 0 || !spec_char_is_digit(nan@[0], radix)
    &&& read.inf_string matches Some(inf) ==> inf@.len() == 0 || !spec_char_is_digit(inf@[0], radix)
}

/// The power of the radix that a number read from text is scaled by, and
/// the one that the digits written are scaled by, give the same number:
/// the mantissa read, with `fraction_digits` digits behind the point and
/// the exponent `exponent`, is the digits `chars` with the point before
/// the digit at index `point`.
pub open spec fn spec_same_number(
    mantissa: nat,
    fraction_digits: nat,
    exponent: int,
    chars: Seq<u8>,
    point: int,
    radix: nat,
) -> bool {
    let r = radix as int;
    mantissa * pow(r, crate::parse_float::spec_positive_part(exponent)) * pow(r, chars.len())
        * pow(r, crate::parse_float::spec_positive_part(-point)) == spec_accumulate(
        0,
        chars,
        radix,
    ) * pow(r, crate::parse_float::spec_positive_part(point)) * pow(r, fraction_digits) * pow(
        r,
        crate::parse_float::spec_positive_part(-exponent),
    )
}

/// Where the digits before a point, the point and the digits behind it
/// stand in a text that is made of them and of what stands around them.
proof fn lemma_pointed_slices(pre: Seq<u8>, whole: Seq<u8>, point: u8, part: Seq<u8>, post: Seq<u8>)
    ensures
        ({
            let text = pre + (whole + seq![point] + part) + post;
            let start = pre.len() as int;
            let middle = start + whole.len();
            &&& text.subrange(start, middle) == whole
            &&& text[middle] == point
            &&& text.subrange(middle + 1, middle + 1 + part.len()) == part
            &&& text.subrange(middle + 1 + part.len(), text.len() as int) == post
            &&& text.len() == pre.len() + whole.len() + 1 + part.len() + post.len()
        }),
{
    let text = pre + (whole + seq![point] + part) + post;
    let start = pre.len() as int;
    let middle = start + whole.len();
    assert(text.subrange(start, middle) =~= whole);
    assert(text.subrange(middle + 1, middle + 1 + part.len()) =~= part);
    assert(text.subrange(middle + 1 + part.len(), text.len() as int) =~= post);
}

/// Where the digits of a number without a point stand in a text that is
/// made of them and of what stands around them.
proof fn lemma_plain_slices(pre: Seq<u8>, whole: Seq<u8>, post: Seq<u8>)
    ensures
        ({
            let text = pre + whole + post;
            let start = pre.len() as int;
            let middle = start + whole.len();
            &&& text.subrange(start, middle) == whole
            &&& text.subrange(middle, text.len() as int) == post
            &&& text.len() == pre.len() + whole.len() + post.len()
        }),
{
    let text = pre + whole + post;
    let start = pre.len() as int;
    let middle = start + whole.len();
    assert(text.subrange(start, middle) =~= whole);
    assert(text.subrange(middle, text.len() as int) =~= post);
}

/// What is read from digits that were written behind the bytes `pre`
/// with the point behind the first of them and an exponent behind the
/// last: the number that the digits read make, the count of those behind
/// the point, and the exponent. The digits read and the digits written
/// are the same up to powers of the radix.
pub proof fn lemma_scientific_text_read(
    pre: Seq<u8>,
    chars: Seq<u8>,
    exponent: int,
    format: u128,
    write: Options,
    read: ParseOptions,
) -> (r: (nat, nat))
    requires
        spec_reads_as_written(format, write, read),
        chars.len() >= 1,
        spec_all_chars(chars, spec_mantissa_radix(format) as nat),
        !spec_has_flag(format, crate::format::NO_EXPONENT_NOTATION),
    ensures
        spec_number(
            pre + (spec_number_text(
                chars,
                1,
                write.decimal_point,
                write.spec_min_digits() as int,
                write.trim_floats && !spec_has_flag(format, NO_EXPONENT_WITHOUT_FRACTION),
            ) + spec_exponent_text(
                exponent,
                write.exponent,
                spec_has_flag(format, REQUIRED_EXPONENT_SIGN),
                spec_exponent_radix(format) as nat,
            )),
            format,
            read,
            pre.len() as int,
        ) == Ok::<(Lexeme, int), Error>(
            (
                Lexeme::Number { mantissa: r.0, fraction_digits: r.1, exponent },
                (pre + (spec_number_text(
                    chars,
                    1,
                    write.decimal_point,
                    write.spec_min_digits() as int,
                    write.trim_floats && !spec_has_flag(format, NO_EXPONENT_WITHOUT_FRACTION),
                ) + spec_exponent_text(
                    exponent,
                    write.exponent,
                    spec_has_flag(format, REQUIRED_EXPONENT_SIGN),
                    spec_exponent_radix(format) as nat,
                ))).len() as int,
            ),
        ),
        r.0 * pow(spec_mantissa_radix(format) as int, chars.len()) == spec_accumulate(
            0,
            chars,
            spec_mantissa_radix(format) as nat,
        ) * pow(spec_mantissa_radix(format) as int, 1 + r.1),
{
    let radix = spec_mantissa_radix(format) as nat;
    let min = write.spec_min_digits() as int;
    let trim = write.trim_floats && !spec_has_flag(format, NO_EXPONENT_WITHOUT_FRACTION);
    let number = spec_number_text(chars, 1, write.decimal_point, min, trim);
    let behind = spec_exponent_text(
        exponent,
        write.exponent,
        spec_has_flag(format, REQUIRED_EXPONENT_SIGN),
        spec_exponent_radix(format) as nat,
    );
    let text = pre + (number + behind);
    let whole = spec_text_whole(chars, 1);
    let pointed = spec_text_pointed(chars, 1, trim);
    let part = spec_text_part(chars, 1, min, trim);
    lemma_number_text_parts(chars, 1, write.decimal_point, min, trim);
    lemma_number_text_value(chars, 1, min, trim, radix);
    let start = pre.len() as int;
    let end = start + number.len();
    assert(behind.len() >= 1);
    assert(behind[0] == write.exponent);
    if pointed {
        lemma_pointed_slices(pre, whole, write.decimal_point, part, behind);
        assert(text =~= pre + (whole + seq![write.decimal_point] + part) + behind);
    } else {
        lemma_plain_slices(pre, whole, behind);
        assert(text =~= pre + whole + behind);
    }
    assert(text.subrange(end, text.len() as int)[0] == text[end]);
    lemma_mantissa_read(text, format, read, start, whole, pointed, part);
    assert(pointed ==> part.len() >= 1) by {
        crate::binary::lemma_significant_len(chars);
    }
    lemma_exponent_read(text, format, read, end, part.len(), exponent);
    let read_mantissa = spec_mantissa(text, format, read, start);
    assert(crate::lex::spec_mantissa_error(read_mantissa, text, format) is None);
    assert(crate::lex::spec_after_suffix(text, format, text.len() as int) == text.len());
    (spec_accumulate(0, whole + part, radix), part.len())
}

/// What is read from a number that was written in scientific notation
/// behind the bytes `pre`.
pub proof fn lemma_scientific_read(
    pre: Seq<u8>,
    chars: Seq<u8>,
    sci_exp: int,
    format: u128,
    write: Options,
    read: ParseOptions,
) -> (r: (nat, nat))
    requires
        spec_reads_as_written(format, write, read),
        chars.len() >= 1,
        spec_all_chars(chars, spec_mantissa_radix(format) as nat),
        crate::hex::spec_uses_exponent(sci_exp, format, write),
    ensures
        spec_number(
            pre + spec_digits_text(chars, sci_exp, format, write),
            format,
            read,
            pre.len() as int,
        ) == Ok::<(Lexeme, int), Error>(
            (
                Lexeme::Number { mantissa: r.0, fraction_digits: r.1, exponent: sci_exp },
                (pre + spec_digits_text(chars, sci_exp, format, write)).len() as int,
            ),
        ),
        spec_same_number(r.0, r.1, sci_exp, chars, sci_exp + 1, spec_mantissa_radix(format) as nat),
{
    let radix = spec_mantissa_radix(format) as nat;
    let found = lemma_scientific_text_read(pre, chars, sci_exp, format, write, read);
    lemma_same_number(
        found.0 as int,
        spec_accumulate(0, chars, radix) as int,
        radix as int,
        chars.len(),
        1 + found.1,
        crate::parse_float::spec_positive_part(sci_exp),
        crate::parse_float::spec_positive_part(-(sci_exp + 1)),
        crate::parse_float::spec_positive_part(sci_exp + 1),
        found.1,
        crate::parse_float::spec_positive_part(-sci_exp),
    );
    found
}

/// Of two numbers that are the same up to powers of the radix, the
/// products with further powers are the same where the exponents add up
/// to the same.
pub proof fn lemma_same_number(
    mantissa: int,
    digits: int,
    radix: int,
    count: nat,
    shift: nat,
    a: nat,
    b: nat,
    c: nat,
    d: nat,
    e: nat,
)
    requires
        radix >= 2,
        mantissa * pow(radix, count) == digits * pow(radix, shift),
        a + b + shift == c + d + e,
    ensures
        mantissa * pow(radix, a) * pow(radix, count) * pow(radix, b) == digits * pow(radix, c)
            * pow(radix, d) * pow(radix, e),
{
    let pa = pow(radix, a);
    let pb = pow(radix, b);
    let pc = pow(radix, c);
    let pd = pow(radix, d);
    let pe = pow(radix, e);
    let pn = pow(radix, count);
    let ps = pow(radix, shift);
    vstd::arithmetic::power::lemma_pow_adds(radix, a, b);
    vstd::arithmetic::power::lemma_pow_adds(radix, a + b, shift);
    vstd::arithmetic::power::lemma_pow_adds(radix, c, d);
    vstd::arithmetic::power::lemma_pow_adds(radix, c + d, e);
    assert((pa * pb) * ps == (pc * pd) * pe);
    assert(mantissa * pa * pn * pb == (mantissa * pn) * (pa * pb)) by (nonlinear_arith);
    assert((digits * ps) * (pa * pb) == digits * ((pa * pb) * ps)) by (nonlinear_arith);
    assert(digits * pc * pd * pe == digits * ((pc * pd) * pe)) by (nonlinear_arith);
}

/// What is read from digits that were written behind the bytes `pre`
/// with `leading` places before the point and no exponent. The digits
/// read and the digits written are the same up to powers of the radix.
pub proof fn lemma_positive_text_read(
    pre: Seq<u8>,
    chars: Seq<u8>,
    leading: int,
    format: u128,
    write: Options,
    read: ParseOptions,
) -> (r: (nat, nat))
    requires
        spec_reads_as_written(format, write, read),
        chars.len() >= 1,
        spec_all_chars(chars, spec_mantissa_radix(format) as nat),
        !spec_has_flag(format, crate::format::REQUIRED_EXPONENT_NOTATION),
        leading >= 1,
    ensures
        spec_number(
            pre + spec_number_text(
                chars,
                leading,
                write.decimal_point,
                write.spec_min_digits() as int,
                write.trim_floats,
            ),
            format,
            read,
            pre.len() as int,
        ) == Ok::<(Lexeme, int), Error>(
            (
                Lexeme::Number { mantissa: r.0, fraction_digits: r.1, exponent: 0 },
                (pre + spec_number_text(
                    chars,
                    leading,
                    write.decimal_point,
                    write.spec_min_digits() as int,
                    write.trim_floats,
                )).len() as int,
            ),
        ),
        r.0 * pow(spec_mantissa_radix(format) as int, chars.len()) == spec_accumulate(
            0,
            chars,
            spec_mantissa_radix(format) as nat,
        ) * pow(spec_mantissa_radix(format) as int, (leading + r.1) as nat),
{
    let radix = spec_mantissa_radix(format) as nat;
    let min = write.spec_min_digits() as int;
    let trim = write.trim_floats;
    let number = spec_number_text(chars, leading, write.decimal_point, min, trim);
    let text = pre + number;
    let whole = spec_text_whole(chars, leading);
    let pointed = spec_text_pointed(chars, leading, trim);
    let part = spec_text_part(chars, leading, min, trim);
    lemma_number_text_parts(chars, leading, write.decimal_point, min, trim);
    lemma_number_text_value(chars, leading, min, trim, radix);
    let start = pre.len() as int;
    let none = Seq::<u8>::empty();
    if pointed {
        lemma_pointed_slices(pre, whole, write.decimal_point, part, none);
        assert(text =~= pre + (whole + seq![write.decimal_point] + part) + none);
    } else {
        lemma_plain_slices(pre, whole, none);
        assert(text =~= pre + whole + none);
    }
    lemma_mantissa_read(text, format, read, start, whole, pointed, part);
    assert(pointed ==> part.len() >= 1) by {
        crate::binary::lemma_significant_len(chars);
    }
    lemma_no_exponent_read(text, format, read, part.len());
    let read_mantissa = spec_mantissa(text, format, read, start);
    assert(crate::lex::spec_mantissa_error(read_mantissa, text, format) is None);
    assert(crate::lex::spec_after_suffix(text, format, text.len() as int) == text.len());
    (spec_accumulate(0, whole + part, radix), part.len())
}

/// What is read from a number of one or more that was written in
/// positional notation behind the bytes `pre`.
pub proof fn lemma_positive_read(
    pre: Seq<u8>,
    chars: Seq<u8>,
    sci_exp: int,
    format: u128,
    write: Options,
    read: ParseOptions,
) -> (r: (nat, nat))
    requires
        spec_reads_as_written(format, write, read),
        chars.len() >= 1,
        spec_all_chars(chars, spec_mantissa_radix(format) as nat),
        !crate::hex::spec_uses_exponent(sci_exp, format, write),
        sci_exp >= 0,
    ensures
        spec_number(
            pre + spec_digits_text(chars, sci_exp, format, write),
            format,
            read,
            pre.len() as int,
        ) == Ok::<(Lexeme, int), Error>(
            (
                Lexeme::Number { mantissa: r.0, fraction_digits: r.1, exponent: 0 },
                (pre + spec_digits_text(chars, sci_exp, format, write)).len() as int,
            ),
        ),
        spec_same_number(r.0, r.1, 0, chars, sci_exp + 1, spec_mantissa_radix(format) as nat),
{
    let radix = spec_mantissa_radix(format) as nat;
    let leading = sci_exp + 1;
    lemma_plain_form(sci_exp, format, write);
    let found = lemma_positive_text_read(pre, chars, leading, format, write, read);
    lemma_same_number(
        found.0 as int,
        spec_accumulate(0, chars, radix) as int,
        radix as int,
        chars.len(),
        (leading + found.1) as nat,
        0,
        0,
        leading as nat,
        found.1,
        0,
    );
    found
}

/// A number that is written without an exponent is written in a format
/// that does not ask for one.
pub proof fn lemma_plain_form(sci_exp: int, format: u128, write: Options)
    requires
        spec_is_valid(format),
        !crate::hex::spec_uses_exponent(sci_exp, format, write),
    ensures
        !spec_has_flag(format, crate::format::REQUIRED_EXPONENT_NOTATION),
{
}

/// What is read from digits that were written behind the bytes `pre`
/// behind a zero, the point and `zeros - 1` more zeros, without an
/// exponent. The digits read and the digits written are the same up to
/// powers of the radix.
pub proof fn lemma_negative_text_read(
    pre: Seq<u8>,
    chars: Seq<u8>,
    zeros: int,
    format: u128,
    write: Options,
    read: ParseOptions,
) -> (r: (nat, nat))
    requires
        spec_reads_as_written(format, write, read),
        chars.len() >= 1,
        spec_all_chars(chars, spec_mantissa_radix(format) as nat),
        !spec_has_flag(format, crate::format::REQUIRED_EXPONENT_NOTATION),
        zeros >= 1,
    ensures
        spec_number(
            pre + spec_fraction_text(
                chars,
                zeros,
                write.decimal_point,
                write.spec_min_digits() as int,
            ),
            format,
            read,
            pre.len() as int,
        ) == Ok::<(Lexeme, int), Error>(
            (
                Lexeme::Number { mantissa: r.0, fraction_digits: r.1, exponent: 0 },
                (pre + spec_fraction_text(
                    chars,
                    zeros,
                    write.decimal_point,
                    write.spec_min_digits() as int,
                )).len() as int,
            ),
        ),
        r.0 * pow(spec_mantissa_radix(format) as int, (chars.len() + zeros - 1) as nat)
            == spec_accumulate(0, chars, spec_mantissa_radix(format) as nat) * pow(
            spec_mantissa_radix(format) as int,
            r.1,
        ),
{
    let radix = spec_mantissa_radix(format) as nat;
    let rr = radix as int;
    let min = write.spec_min_digits() as int;
    let number = spec_fraction_text(chars, zeros, write.decimal_point, min);
    let text = pre + number;
    let whole = seq![48u8];
    let part = spec_fraction_part(chars, zeros, min);
    lemma_fraction_text_parts(chars, zeros, write.decimal_point, min);
    lemma_fraction_text_value(chars, zeros, min, radix);
    let start = pre.len() as int;
    let none = Seq::<u8>::empty();
    lemma_pointed_slices(pre, whole, write.decimal_point, part, none);
    assert(text =~= pre + (whole + seq![write.decimal_point] + part) + none);
    assert(spec_char_is_digit(48, rr));
    lemma_mantissa_read(text, format, read, start, whole, true, part);
    crate::binary::lemma_significant_len(chars);
    assert(part.len() >= 1);
    lemma_no_exponent_read(text, format, read, part.len());
    let read_mantissa = spec_mantissa(text, format, read, start);
    assert(crate::lex::spec_mantissa_error(read_mantissa, text, format) is None);
    assert(crate::lex::spec_after_suffix(text, format, text.len() as int) == text.len());
    (spec_accumulate(0, whole + part, radix), part.len())
}

/// What is read from a number below one that was written in positional
/// notation behind the bytes `pre`.
pub proof fn lemma_negative_read(
    pre: Seq<u8>,
    chars: Seq<u8>,
    sci_exp: int,
    format: u128,
    write: Options,
    read: ParseOptions,
) -> (r: (nat, nat))
    requires
        spec_reads_as_written(format, write, read),
        chars.len() >= 1,
        spec_all_chars(chars, spec_mantissa_radix(format) as nat),
        !crate::hex::spec_uses_exponent(sci_exp, format, write),
        sci_exp < 0,
    ensures
        spec_number(
            pre + spec_digits_text(chars, sci_exp, format, write),
            format,
            read,
            pre.len() as int,
        ) == Ok::<(Lexeme, int), Error>(
            (
                Lexeme::Number { mantissa: r.0, fraction_digits: r.1, exponent: 0 },
                (pre + spec_digits_text(chars, sci_exp, format, write)).len() as int,
            ),
        ),
        spec_same_number(r.0, r.1, 0, chars, sci_exp + 1, spec_mantissa_radix(format) as nat),
{
    let radix = spec_mantissa_radix(format) as nat;
    let zeros = -sci_exp;
    lemma_plain_form(sci_exp, format, write);
    let found = lemma_negative_text_read(pre, chars, zeros, format, write, read);
    let mantissa = found.0;
    lemma_same_number(
        mantissa as int,
        spec_accumulate(0, chars, radix) as int,
        radix as int,
        (chars.len() + zeros - 1) as nat,
        found.1,
        0,
        0,
        0,
        found.1,
        0,
    );
    let r = radix as int;
    vstd::arithmetic::power::lemma_pow0(r);
    vstd::arithmetic::power::lemma_pow_adds(r, chars.len(), (zeros - 1) as nat);
    let a = pow(r, chars.len());
    let b = pow(r, (zeros - 1) as nat);
    assert(mantissa * 1 * a * b == mantissa * 1 * (a * b) * 1) by (nonlinear_arith);
    found
}

/// A byte that is the same as a digit of a radix, with or without its
/// case, is a digit of that radix too.
pub proof fn lemma_same_as_digit(a: u8, b: u8, cased: bool, radix: int)
    requires
        spec_same_byte(a, b, cased),
        spec_char_is_digit(a, radix),
    ensures
        spec_char_is_digit(b, radix),
{
}

/// What is read from a number that was written by its digits and its
/// scientific exponent behind the bytes `pre`: the mantissa, the count of
/// its digits behind the point, and the exponent.
pub proof fn lemma_digits_text_read(
    pre: Seq<u8>,
    chars: Seq<u8>,
    sci_exp: int,
    format: u128,
    write: Options,
    read: ParseOptions,
) -> (r: (nat, nat, int))
    requires
        spec_reads_as_written(format, write, read),
        chars.len() >= 1,
        spec_all_chars(chars, spec_mantissa_radix(format) as nat),
    ensures
        spec_number(
            pre + spec_digits_text(chars, sci_exp, format, write),
            format,
            read,
            pre.len() as int,
        ) == Ok::<(Lexeme, int), Error>(
            (
                Lexeme::Number { mantissa: r.0, fraction_digits: r.1, exponent: r.2 },
                (pre + spec_digits_text(chars, sci_exp, format, write)).len() as int,
            ),
        ),
        spec_same_number(r.0, r.1, r.2, chars, sci_exp + 1, spec_mantissa_radix(format) as nat),
        spec_digits_text(chars, sci_exp, format, write).len() >= 1,
        spec_char_is_digit(
            spec_digits_text(chars, sci_exp, format, write)[0],
            spec_mantissa_radix(format) as int,
        ),
{
    let min = write.spec_min_digits() as int;
    let body = spec_digits_text(chars, sci_exp, format, write);
    if crate::hex::spec_uses_exponent(sci_exp, format, write) {
        let trim = write.trim_floats && !spec_has_flag(format, NO_EXPONENT_WITHOUT_FRACTION);
        lemma_number_text_parts(chars, 1, write.decimal_point, min, trim);
        assert(body[0] == chars[0]);
        let read = lemma_scientific_read(pre, chars, sci_exp, format, write, read);
        (read.0, read.1, sci_exp)
    } else if sci_exp >= 0 {
        lemma_number_text_parts(chars, sci_exp + 1, write.decimal_point, min, write.trim_floats);
        assert(body[0] == chars[0]);
        let read = lemma_positive_read(pre, chars, sci_exp, format, write, read);
        (read.0, read.1, 0)
    } else {
        lemma_fraction_text_parts(chars, -sci_exp, write.decimal_point, min);
        assert(body[0] == 48);
        let read = lemma_negative_read(pre, chars, sci_exp, format, write, read);
        (read.0, read.1, 0)
    }
}

/// A text made of a sign and of a number that starts with a digit is
/// taken apart as that number with the sign.
pub proof fn lemma_signed_text_lexed(
    negative: bool,
    body: Seq<u8>,
    format: u128,
    write: Options,
    read: ParseOptions,
    partial: bool,
    lexeme: Lexeme,
)
    requires
        spec_reads_as_written(format, write, read),
        body.len() >= 1,
        spec_char_is_digit(body[0], spec_mantissa_radix(format) as int),
        spec_number(
            crate::format::spec_sign_text(negative, format) + body,
            format,
            read,
            crate::format::spec_sign_text(negative, format).len() as int,
        ) == Ok::<(Lexeme, int), Error>(
            (lexeme, (crate::format::spec_sign_text(negative, format) + body).len() as int),
        ),
    ensures
        spec_lex(crate::format::spec_sign_text(negative, format) + body, format, read, partial)
            == Ok::<Lexed, Error>(
            Lexed {
                negative,
                lexeme,
                consumed: (crate::format::spec_sign_text(negative, format) + body).len() as int,
            },
        ),
{
    let radix = spec_mantissa_radix(format) as int;
    let sign = crate::format::spec_sign_text(negative, format);
    let text = sign + body;
    let integer = spec_section_syntax(format, Section::Integer);
    let special = spec_section_syntax(format, Section::Special);
    let start = sign.len() as int;
    assert(text[start] == body[0]);
    assert(spec_peek_cursor(text, integer, 0) == 0);
    assert(spec_peek_cursor(text, integer, 1) == 1);
    assert(crate::parse::spec_sign(text, format, true) == Ok::<(bool, int), Error>(
        (negative, start),
    ));
    // Neither literal of a special value starts with a digit.
    let cased = spec_has_flag(format, crate::format::CASE_SENSITIVE_SPECIAL);
    assert(spec_peek_cursor(text, special, start) == start);
    match read.nan_string {
        Some(literal) => {
            if literal@.len() > 0 && spec_same_byte(text[start], literal@[0], cased) {
                lemma_same_as_digit(text[start], literal@[0], cased, radix);
            }
        },
        None => {},
    }
    match read.inf_string {
        Some(literal) => {
            if literal@.len() > 0 && spec_same_byte(text[start], literal@[0], cased) {
                lemma_same_as_digit(text[start], literal@[0], cased, radix);
            }
        },
        None => {},
    }
    assert(crate::lex::spec_special(text, format, read, start) is None);
}

/// What the text of a float is taken apart as where it was written with
/// its sign and by its digits: a number with the sign, the mantissa, the
/// count of digits behind the point and the exponent of the text, which
/// takes all of the text.
pub proof fn lemma_written_text_lexed(
    negative: bool,
    chars: Seq<u8>,
    sci_exp: int,
    format: u128,
    write: Options,
    read: ParseOptions,
    partial: bool,
) -> (r: (nat, nat, int))
    requires
        spec_reads_as_written(format, write, read),
        chars.len() >= 1,
        spec_all_chars(chars, spec_mantissa_radix(format) as nat),
    ensures
        spec_lex(
            crate::format::spec_sign_text(negative, format) + spec_digits_text(
                chars,
                sci_exp,
                format,
                write,
            ),
            format,
            read,
            partial,
        ) == Ok::<Lexed, Error>(
            Lexed {
                negative,
                lexeme: Lexeme::Number { mantissa: r.0, fraction_digits: r.1, exponent: r.2 },
                consumed: (crate::format::spec_sign_text(negative, format) + spec_digits_text(
                    chars,
                    sci_exp,
                    format,
                    write,
                )).len() as int,
            },
        ),
        spec_same_number(r.0, r.1, r.2, chars, sci_exp + 1, spec_mantissa_radix(format) as nat),
{
    let sign = crate::format::spec_sign_text(negative, format);
    let body = spec_digits_text(chars, sci_exp, format, write);
    let number = lemma_digits_text_read(sign, chars, sci_exp, format, write, read);
    lemma_signed_text_lexed(
        negative,
        body,
        format,
        write,
        read,
        partial,
        Lexeme::Number { mantissa: number.0, fraction_digits: number.1, exponent: number.2 },
    );
    number
}

/// Two ratios over powers are the same number where their cross products
/// without the unit are the same.
proof fn lemma_cross(
    number: int,
    mantissa: int,
    unit: int,
    a: int,
    b: int,
    c: int,
    d: int,
    e: int,
    f: int,
)
    requires
        mantissa * a * b * c == number * d * e * f,
    ensures
        (number * d * unit) * (e * f) == (mantissa * a * unit) * (b * c),
{
    assert((number * d * unit) * (e * f) == unit * (number * d * e * f)) by (nonlinear_arith);
    assert((mantissa * a * unit) * (b * c) == unit * (mantissa * a * b * c)) by (nonlinear_arith);
}

/// A text that is taken apart as a number which rounds to a float below
/// infinity is read as that float with the sign of the text.
pub proof fn lemma_lexed_is_parsed(
    text: Seq<u8>,
    format: u128,
    read: ParseOptions,
    kind: crate::float::FloatKind,
    partial: bool,
    negative: bool,
    mantissa: nat,
    fraction_digits: nat,
    exponent: int,
    bits: int,
)
    requires
        spec_lex(text, format, read, partial) == Ok::<Lexed, Error>(
            Lexed {
                negative,
                lexeme: Lexeme::Number { mantissa, fraction_digits, exponent },
                consumed: text.len() as int,
            },
        ),
        crate::parse_float::spec_rounded(
            mantissa,
            fraction_digits,
            exponent,
            spec_mantissa_radix(format) as int,
            spec_exponent_base(format) as int,
            kind,
        ) == bits,
        0 <= bits < kind.spec_inf_bits(),
        bits == 0 ==> mantissa == 0,
    ensures
        crate::parse_float::spec_parse_float(text, format, read, kind, partial) == Ok::<
            (int, int),
            Error,
        >(
            (
                (if negative {
                    crate::parse_float::spec_sign_bit(kind)
                } else {
                    0
                }) + bits,
                text.len() as int,
            ),
        ),
{
}

/// The bits of a finite float lie below those of infinity.
pub proof fn lemma_bits_below_infinity(float: FloatParts)
    requires
        float.spec_wf(),
        !float.spec_is_special(),
    ensures
        0 <= crate::decimal::spec_bits(float) < float.kind.spec_inf_bits(),
{
    let hidden = float.kind.spec_hidden_bit();
    assert(float.biased_exponent * hidden + float.fraction < float.kind.spec_inf_bits())
        by (nonlinear_arith)
        requires
            float.biased_exponent < float.kind.spec_max_exponent(),
            float.fraction < hidden,
            float.kind.spec_inf_bits() == float.kind.spec_max_exponent() * hidden,
            hidden > 0,
    ;
    assert(float.biased_exponent * hidden >= 0) by (nonlinear_arith)
        requires
            hidden > 0,
    ;
}

/// What the digits `0` with the point behind them are read as rounds to
/// zero.
proof fn lemma_zero_read(
    negative: bool,
    format: u128,
    write: Options,
    read: ParseOptions,
    kind: crate::float::FloatKind,
    partial: bool,
) -> (r: (nat, nat, int))
    requires
        spec_reads_as_written(format, write, read),
        spec_exponent_base(format) == spec_mantissa_radix(format),
    ensures
        spec_lex(
            crate::format::spec_sign_text(negative, format) + spec_digits_text(
                seq![48u8],
                0,
                format,
                write,
            ),
            format,
            read,
            partial,
        ) == Ok::<Lexed, Error>(
            Lexed {
                negative,
                lexeme: Lexeme::Number { mantissa: r.0, fraction_digits: r.1, exponent: r.2 },
                consumed: (crate::format::spec_sign_text(negative, format) + spec_digits_text(
                    seq![48u8],
                    0,
                    format,
                    write,
                )).len() as int,
            },
        ),
        r.0 == 0,
        crate::parse_float::spec_rounded(
            r.0,
            r.1,
            r.2,
            spec_mantissa_radix(format) as int,
            spec_mantissa_radix(format) as int,
            kind,
        ) == 0,
{
    let radix = spec_mantissa_radix(format) as nat;
    let r = radix as int;
    let chars = seq![48u8];
    let unit = pow2(crate::parse_float::spec_unit_shift(kind)) as int;
    assert(spec_char_is_digit(48, r));
    let read_as = lemma_written_text_lexed(negative, chars, 0, format, write, read, partial);
    assert(chars.drop_last().len() == 0);
    assert(spec_accumulate(0, chars.drop_last(), radix) == 0);
    assert(chars.last() == 48);
    assert(crate::digits_text::spec_digit_of(48, radix) == 0);
    assert(spec_accumulate(0, chars, radix) == 0 * radix + 0);
    let a = pow(r, crate::parse_float::spec_positive_part(read_as.2));
    let b = pow(r, chars.len());
    let c = pow(r, crate::parse_float::spec_positive_part(-1));
    lemma_pow_positive(r, crate::parse_float::spec_positive_part(read_as.2));
    lemma_pow_positive(r, chars.len());
    lemma_pow_positive(r, crate::parse_float::spec_positive_part(-1));
    let d = pow(r, crate::parse_float::spec_positive_part(1));
    let e = pow(r, read_as.1);
    let f = pow(r, crate::parse_float::spec_positive_part(-read_as.2));
    assert(0 * d * e * f == 0) by (nonlinear_arith);
    assert(read_as.0 == 0) by (nonlinear_arith)
        requires
            read_as.0 * a * b * c == 0,
            a > 0,
            b > 0,
            c > 0,
            read_as.0 >= 0,
    ;
    let den = crate::parse_float::spec_denominator(read_as.1, read_as.2, r, r);
    crate::parse_float::lemma_denominator_positive(read_as.1, read_as.2, r, r);
    let num = crate::parse_float::spec_numerator(0, read_as.2, r, kind);
    assert(num == 0) by (nonlinear_arith)
        requires
            num == 0 * a * unit,
    ;
    crate::parse_float::lemma_zero_rounds_to_zero(den, kind);
    crate::parse_float::lemma_rounded_is_nearest(0, read_as.1, read_as.2, r, r, kind);
    read_as
}

/// What the shortest digits of a float above zero are read as rounds to
/// that float.
proof fn lemma_shortest_read(
    negative: bool,
    bits: int,
    format: u128,
    write: Options,
    read: ParseOptions,
    kind: crate::float::FloatKind,
    partial: bool,
) -> (r: (nat, nat, int))
    requires
        spec_reads_as_written(format, write, read),
        spec_exponent_base(format) == spec_mantissa_radix(format),
        0 < bits < kind.spec_inf_bits(),
    ensures
        spec_lex(
            crate::format::spec_sign_text(negative, format) + spec_digits_text(
                spec_chars(
                    crate::shortest::spec_shortest(bits, kind, spec_mantissa_radix(format) as nat).0,
                ),
                crate::shortest::spec_shortest(bits, kind, spec_mantissa_radix(format) as nat).1
                    - 1,
                format,
                write,
            ),
            format,
            read,
            partial,
        ) == Ok::<Lexed, Error>(
            Lexed {
                negative,
                lexeme: Lexeme::Number { mantissa: r.0, fraction_digits: r.1, exponent: r.2 },
                consumed: (crate::format::spec_sign_text(negative, format) + spec_digits_text(
                    spec_chars(
                        crate::shortest::spec_shortest(
                            bits,
                            kind,
                            spec_mantissa_radix(format) as nat,
                        ).0,
                    ),
                    crate::shortest::spec_shortest(
                        bits,
                        kind,
                        spec_mantissa_radix(format) as nat,
                    ).1 - 1,
                    format,
                    write,
                )).len() as int,
            },
        ),
        crate::parse_float::spec_rounded(
            r.0,
            r.1,
            r.2,
            spec_mantissa_radix(format) as int,
            spec_mantissa_radix(format) as int,
            kind,
        ) == bits,
{
    let radix = spec_mantissa_radix(format) as nat;
    let r = radix as int;
    let unit = pow2(crate::parse_float::spec_unit_shift(kind)) as int;
    let shortest = crate::shortest::spec_shortest(bits, kind, radix);
    let digits = shortest.0;
    let point = shortest.1;
    let chars = spec_chars(digits);
    crate::reads_back::lemma_shortest_reads_back(bits, kind, radix, digits.len(), point);
    crate::digits_text::lemma_chars_value(digits, radix);
    let read_as = lemma_written_text_lexed(negative, chars, point - 1, format, write, read, partial);
    let number = spec_values(digits, radix) as int;
    let mantissa = read_as.0 as int;
    let found_num = crate::parse_float::spec_numerator(number as nat, point, r, kind);
    let found_den = crate::parse_float::spec_denominator(digits.len(), point, r, r);
    let num = crate::parse_float::spec_numerator(read_as.0, read_as.2, r, kind);
    let den = crate::parse_float::spec_denominator(read_as.1, read_as.2, r, r);
    crate::parse_float::lemma_denominator_positive(digits.len(), point, r, r);
    crate::parse_float::lemma_denominator_positive(read_as.1, read_as.2, r, r);
    let a = pow(r, crate::parse_float::spec_positive_part(read_as.2));
    let b = pow(r, chars.len());
    let c = pow(r, crate::parse_float::spec_positive_part(-point));
    let d = pow(r, crate::parse_float::spec_positive_part(point));
    let e = pow(r, read_as.1);
    let f = pow(r, crate::parse_float::spec_positive_part(-read_as.2));
    lemma_cross(number, mantissa, unit, a, b, c, d, e, f);
    crate::reads_back::lemma_nearest_same_ratio(bits, found_num, found_den, num, den, kind);
    crate::parse_float::lemma_rounded_is_nearest(read_as.0, read_as.1, read_as.2, r, r, kind);
    read_as
}

/// A finite float that was written by its shortest digits reads back as
/// itself, bit for bit and with its sign: the float that the text is
/// read as has the bits of the float that was written, and all of the
/// text is taken. This holds in every format whose exponent raises the
/// radix of its mantissa and whose radix is no power of two, the decimal
/// formats among them, where the options of reading agree with those of
/// writing.
pub proof fn lemma_written_float_reads_back(
    float: FloatParts,
    format: u128,
    write: Options,
    read: ParseOptions,
    partial: bool,
)
    requires
        float.spec_wf(),
        !float.spec_is_special(),
        spec_reads_as_written(format, write, read),
        spec_exponent_base(format) == spec_mantissa_radix(format),
        !crate::binary::spec_is_power_of_two_radix(spec_mantissa_radix(format)),
    ensures
        crate::parse_float::spec_parse_float(
            crate::write::spec_text(float, format, write),
            format,
            read,
            float.kind,
            partial,
        ) == Ok::<(int, int), Error>(
            (
                (if float.negative {
                    crate::parse_float::spec_sign_bit(float.kind)
                } else {
                    0
                }) + crate::decimal::spec_bits(float),
                crate::write::spec_text(float, format, write).len() as int,
            ),
        ),
{
    let kind = float.kind;
    let bits = crate::decimal::spec_bits(float);
    lemma_bits_below_infinity(float);
    assert(crate::write::spec_backend(format) != crate::write::Backend::Binary);
    assert(crate::write::spec_backend(format) != crate::write::Backend::Hex);
    let text = crate::write::spec_text(float, format, write);
    let plain = FloatParts { negative: false, ..float };
    assert(crate::decimal::spec_bits(plain) == bits);
    if bits == 0 {
        let read_as = lemma_zero_read(float.negative, format, write, read, kind, partial);
        lemma_lexed_is_parsed(
            text,
            format,
            read,
            kind,
            partial,
            float.negative,
            read_as.0,
            read_as.1,
            read_as.2,
            0,
        );
    } else {
        let read_as = lemma_shortest_read(float.negative, bits, format, write, read, kind, partial);
        lemma_lexed_is_parsed(
            text,
            format,
            read,
            kind,
            partial,
            float.negative,
            read_as.0,
            read_as.1,
            read_as.2,
            bits,
        );
    }
}

/// In the standard decimal format, with the default options of writing
/// and of reading, every finite float that was written reads back as
/// itself.
pub proof fn lemma_standard_round_trip(
    float: FloatParts,
    write: Options,
    read: ParseOptions,
    partial: bool,
)
    requires
        float.spec_wf(),
        !float.spec_is_special(),
        write.spec_is_default(10),
        read.spec_is_default(10),
    ensures
        crate::parse_float::spec_parse_float(
            crate::write::spec_text(float, crate::format::STANDARD, write),
            crate::format::STANDARD,
            read,
            float.kind,
            partial,
        ) == Ok::<(int, int), Error>(
            (
                (if float.negative {
                    crate::parse_float::spec_sign_bit(float.kind)
                } else {
                    0
                }) + crate::decimal::spec_bits(float),
                crate::write::spec_text(float, crate::format::STANDARD, write).len() as int,
            ),
        ),
{
    crate::format::lemma_standard_format();
    let format = crate::format::STANDARD;
    assert(!spec_has_flag(format, crate::format::NO_FLOAT_LEADING_ZEROS)) by {
        assert(0x1_0000u128 & 0x4 == 0) by (bit_vector);
    }
    assert(spec_reads_as_written(format, write, read));
    lemma_written_float_reads_back(float, format, write, read, partial);
}

/// A finite 64-bit float that was written reads back as itself.
pub proof fn lemma_float64_round_trip(
    float: crate::float::Float64,
    format: u128,
    write: Options,
    read: ParseOptions,
    partial: bool,
)
    requires
        !float.spec_parts().spec_is_special(),
        spec_reads_as_written(format, write, read),
        spec_exponent_base(format) == spec_mantissa_radix(format),
        !crate::binary::spec_is_power_of_two_radix(spec_mantissa_radix(format)),
    ensures
        crate::parse_float::spec_parse_float(
            crate::write::spec_text(float.spec_parts(), format, write),
            format,
            read,
            crate::float::FloatKind::Binary64,
            partial,
        ) == Ok::<(int, int), Error>(
            (
                float.bits as int,
                crate::write::spec_text(float.spec_parts(), format, write).len() as int,
            ),
        ),
{
    let parts = float.spec_parts();
    lemma_written_float_reads_back(parts, format, write, read, partial);
    let x = float.bits;
    assert(x == (x / 0x10_0000_0000_0000) * 0x10_0000_0000_0000 + x % 0x10_0000_0000_0000);
    let p = x / 0x10_0000_0000_0000;
    assert(p == (p / 0x800) * 0x800 + p % 0x800);
    assert(p / 0x800 <= 1);
    assert((x >= 0x8000_0000_0000_0000) == (p / 0x800 == 1));
    let biased = (p % 0x800) as int;
    let hidden: int = 0x10_0000_0000_0000;
    assert(biased * hidden == (p % 0x800) * 0x10_0000_0000_0000);
}

/// A finite 32-bit float that was written reads back as itself.
pub proof fn lemma_float32_round_trip(
    float: crate::float::Float32,
    format: u128,
    write: Options,
    read: ParseOptions,
    partial: bool,
)
    requires
        !float.spec_parts().spec_is_special(),
        spec_reads_as_written(format, write, read),
        spec_exponent_base(format) == spec_mantissa_radix(format),
        !crate::binary::spec_is_power_of_two_radix(spec_mantissa_radix(format)),
    ensures
        crate::parse_float::spec_parse_float(
            crate::write::spec_text(float.spec_parts(), format, write),
            format,
            read,
            crate::float::FloatKind::Binary32,
            partial,
        ) == Ok::<(int, int), Error>(
            (
                float.bits as int,
                crate::write::spec_text(float.spec_parts(), format, write).len() as int,
            ),
        ),
{
    let parts = float.spec_parts();
    lemma_written_float_reads_back(parts, format, write, read, partial);
    let x = float.bits;
    assert(x == (x / 0x80_0000) * 0x80_0000 + x % 0x80_0000);
    let p = x / 0x80_0000;
    assert(p == (p / 0x100) * 0x100 + p % 0x100);
    assert(p / 0x100 <= 1);
    assert((x >= 0x8000_0000) == (p / 0x100 == 1));
    let biased = (p % 0x100) as int;
    let hidden: int = 0x80_0000;
    assert(biased * hidden == (p % 0x100) * 0x80_0000);
}

} // verus!
