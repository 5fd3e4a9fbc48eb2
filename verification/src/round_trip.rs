//! An integer that was written reads back as itself.

use crate::compact::{lemma_digits_shape, lemma_digits_value, spec_digits, spec_digits_value};
use crate::digit::spec_char_is_digit;
use crate::format::{spec_is_valid, spec_mantissa_radix, spec_sign_text, Section};
use crate::integer::spec_integer_text;
use crate::iterator::{spec_is_separator, spec_peek, spec_peek_cursor, DigitSyntax};
use crate::parse::{spec_parse_integer, spec_scan, spec_sign, Limits, Parsed, Scan};
use crate::skip::spec_section_syntax;
use vstd::prelude::*;

verus! {

/// The digits before an index denote no more than all the digits do.
pub proof fn lemma_value_of_prefix(digits: Seq<u8>, count: int, radix: nat)
    requires
        0 <= count <= digits.len(),
        1 <= radix,
    ensures
        spec_digits_value(digits.subrange(0, count), radix) <= spec_digits_value(digits, radix),
    decreases digits.len() - count,
{
    if count < digits.len() {
        lemma_value_of_prefix(digits, count + 1, radix);
        let longer = digits.subrange(0, count + 1);
        assert(longer.drop_last() == digits.subrange(0, count));
        let low = spec_digits_value(digits.subrange(0, count), radix);
        assert(low * radix >= low) by (nonlinear_arith)
            requires
                radix >= 1,
                low >= 0,
        ;
    } else {
        assert(digits.subrange(0, count) == digits);
    }
}

/// Where only digits stand from `from` on, none of them a separator, and
/// they denote no more than `max`, reading them from `from` comes to every
/// index behind it with the value of the digits before that index.
pub proof fn lemma_scan_digits(buffer: Seq<u8>, syntax: DigitSyntax, from: int, to: int, max: nat)
    requires
        0 <= from <= to <= buffer.len(),
        1 <= syntax.radix,
        forall|i: int|
            from <= i < buffer.len() ==> spec_char_is_digit(
                #[trigger] buffer[i],
                syntax.radix as int,
            ) && !spec_is_separator(buffer[i], syntax.separator),
        spec_digits_value(buffer.subrange(from, buffer.len() as int), syntax.radix as nat) <= max,
    ensures
        spec_scan(buffer, syntax, from, 0, max) == spec_scan(
            buffer,
            syntax,
            to,
            spec_digits_value(buffer.subrange(from, to), syntax.radix as nat),
            max,
        ),
    decreases to - from,
{
    let radix = syntax.radix as nat;
    if to == from {
        assert(buffer.subrange(from, to).len() == 0);
    } else {
        lemma_scan_digits(buffer, syntax, from, to - 1, max);
        let before = buffer.subrange(from, to - 1);
        let upto = buffer.subrange(from, to);
        let all = buffer.subrange(from, buffer.len() as int);
        assert(upto.drop_last() == before);
        assert(upto.last() == buffer[to - 1]);
        assert(all.subrange(0, to - from) == upto);
        lemma_value_of_prefix(all, to - from, radix);
        assert(spec_char_is_digit(buffer[to - 1], syntax.radix as int));
        if to < buffer.len() {
            assert(!spec_is_separator(buffer[to], syntax.separator));
        }
        assert(spec_peek_cursor(buffer, syntax, to) == to);
    }
}

/// An integer written with the sign and the radix of a valid format reads
/// back, in that format, as the same integer, and all of its text is
/// taken. This holds for every value within the limits that are read for,
/// in every radix from 2 to 36.
pub proof fn lemma_written_integer_reads_back(
    negative: bool,
    magnitude: nat,
    format: u128,
    limits: Limits,
    partial: bool,
)
    requires
        spec_is_valid(format),
        negative ==> 0 < limits.min && magnitude <= limits.min,
        !negative ==> magnitude <= limits.max,
        spec_integer_text(negative, magnitude, format).len() <= usize::MAX,
    ensures
        spec_parse_integer(spec_integer_text(negative, magnitude, format), format, limits, partial)
            == Ok::<Parsed, crate::error::Error>(
            Parsed {
                negative,
                magnitude: magnitude as u128,
                consumed: spec_integer_text(negative, magnitude, format).len() as usize,
            },
        ),
{
    let syntax = spec_section_syntax(format, Section::Integer);
    let radix = spec_mantissa_radix(format) as nat;
    let sign = spec_sign_text(negative, format);
    let digits = spec_digits(magnitude, radix);
    let text = spec_integer_text(negative, magnitude, format);
    let start = sign.len() as int;
    let max = if negative {
        limits.min
    } else {
        limits.max
    };
    lemma_digits_shape(magnitude, radix);
    lemma_digits_value(magnitude, radix);
    assert(text.subrange(start, text.len() as int) == digits);
    assert forall|i: int| start <= i < text.len() implies spec_char_is_digit(
        #[trigger] text[i],
        syntax.radix as int,
    ) && !spec_is_separator(text[i], syntax.separator) by {
        assert(text[i] == digits[i - start]);
    }
    assert(forall|i: int| 0 <= i < start ==> !spec_is_separator(text[i], syntax.separator));
    assert(spec_peek_cursor(text, syntax, 0) == 0);
    assert(spec_peek_cursor(text, syntax, 1) == 1);
    assert(text[start] == digits[0]);
    assert(spec_sign(text, format, limits.min > 0) == Ok::<(bool, int), crate::error::Error>(
        (negative, start),
    ));
    if text[start] == 48 {
        assert(magnitude == 0);
        assert(text.len() == start + 1);
        assert(spec_peek(text, syntax, start + 1) is None);
    }
    lemma_scan_digits(text, syntax, start, text.len() as int, max as nat);
    assert(text.subrange(start, text.len() as int) == digits);
    assert(spec_scan(text, syntax, text.len() as int, magnitude, max as nat) == (Scan::End {
        value: magnitude,
        at: text.len() as int,
    }));
}

} // verus!
