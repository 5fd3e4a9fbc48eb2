//! Digit separators that stand where a format allows them change nothing
//! of what is read.

use crate::digit::spec_char_to_digit;
use crate::error::Error;
use crate::format::{
    spec_digit_separator, spec_has_flag, spec_is_valid, spec_mantissa_radix, Section,
    NO_INTEGER_LEADING_ZEROS, NO_POSITIVE_MANTISSA_SIGN, REQUIRED_MANTISSA_SIGN,
};
use crate::iterator::{
    lemma_peek_cursor, lemma_run_end, spec_is_separator, spec_is_skippable, spec_peek,
    spec_peek_cursor, spec_run_end, DigitSyntax,
};
use crate::parse::{spec_parse_integer, spec_scan, spec_sign, Limits, Parsed, Scan};
use crate::skip::spec_section_syntax;
use vstd::prelude::*;

verus! {

/// The bytes of `buffer` from `from` on that are no separators.
pub open spec fn spec_strip(buffer: Seq<u8>, separator: u8, from: int) -> Seq<u8>
    decreases buffer.len() - from,
{
    if from < 0 || from >= buffer.len() {
        Seq::empty()
    } else if spec_is_separator(buffer[from], separator) {
        spec_strip(buffer, separator, from + 1)
    } else {
        seq![buffer[from]] + spec_strip(buffer, separator, from + 1)
    }
}

/// Whether every separator of `buffer` stands where the rules let one
/// stand, and alone unless separators may stand together.
pub open spec fn spec_separators_allowed(buffer: Seq<u8>, syntax: DigitSyntax) -> bool {
    forall|i: int|
        0 <= i < buffer.len() && spec_is_separator(#[trigger] buffer[i], syntax.separator) ==> {
            &&& spec_is_skippable(buffer, syntax, i)
            &&& !syntax.rules.consecutive ==> !(i + 1 < buffer.len() && spec_is_separator(
                buffer[i + 1],
                syntax.separator,
            ))
        }
}

/// Whether `plain` is `format` without its separator: a format with the
/// same radix and the same rules on signs and leading zeros whose digits
/// lie side by side.
pub open spec fn spec_is_plain_form(plain: u128, format: u128) -> bool {
    &&& spec_digit_separator(plain) == 0
    &&& spec_mantissa_radix(plain) == spec_mantissa_radix(format)
    &&& spec_has_flag(plain, REQUIRED_MANTISSA_SIGN) == spec_has_flag(
        format,
        REQUIRED_MANTISSA_SIGN,
    )
    &&& spec_has_flag(plain, NO_POSITIVE_MANTISSA_SIGN) == spec_has_flag(
        format,
        NO_POSITIVE_MANTISSA_SIGN,
    )
    &&& spec_has_flag(plain, NO_INTEGER_LEADING_ZEROS) == spec_has_flag(
        format,
        NO_INTEGER_LEADING_ZEROS,
    )
}

/// Whether two readings agree: both give the same integer, or both fail
/// for the same reason.
pub open spec fn spec_same_reading(a: Result<Parsed, Error>, b: Result<Parsed, Error>) -> bool {
    match (a, b) {
        (Ok(x), Ok(y)) => x.negative == y.negative && x.magnitude == y.magnitude,
        (Err(x), Err(y)) => x.spec_same_kind(y),
        _ => false,
    }
}

/// How a reading of digits ends and with which value, whatever the index.
pub open spec fn spec_scan_result(scan: Scan) -> (int, nat) {
    match scan {
        Scan::End { value, at } => (0, value),
        Scan::Stop { value, at } => (1, value),
        Scan::Over { at } => (2, 0),
    }
}

/// Where the separators stand as allowed, a peek moves the cursor behind
/// all the separators before it.
pub proof fn lemma_peek_skips_allowed(buffer: Seq<u8>, syntax: DigitSyntax, cursor: int)
    requires
        spec_separators_allowed(buffer, syntax),
        0 <= cursor <= buffer.len(),
    ensures
        spec_peek_cursor(buffer, syntax, cursor) == spec_run_end(
            buffer,
            syntax.separator,
            cursor,
        ),
{
    if cursor < buffer.len() && spec_is_separator(buffer[cursor], syntax.separator) {
        lemma_run_end(buffer, syntax.separator, cursor + 1);
        if !syntax.rules.consecutive {
            if cursor + 1 < buffer.len() {
                assert(!spec_is_separator(buffer[cursor + 1], syntax.separator));
            }
        }
    }
}

/// Stripping from an index on is stripping from behind the separators
/// that stand there.
pub proof fn lemma_strip_from_run_end(buffer: Seq<u8>, separator: u8, from: int)
    requires
        0 <= from <= buffer.len(),
    ensures
        spec_strip(buffer, separator, from) == spec_strip(
            buffer,
            separator,
            spec_run_end(buffer, separator, from),
        ),
    decreases buffer.len() - from,
{
    if from < buffer.len() && spec_is_separator(buffer[from], separator) {
        lemma_strip_from_run_end(buffer, separator, from + 1);
    }
}

/// Without a separator, reading digits from an index of a buffer is
/// reading them from the start of what the buffer holds from there on.
pub proof fn lemma_scan_of_suffix(
    buffer: Seq<u8>,
    plain: DigitSyntax,
    from: int,
    value: nat,
    max: nat,
)
    requires
        plain.separator == 0,
        0 <= from <= buffer.len(),
    ensures
        spec_scan_result(spec_scan(buffer, plain, from, value, max)) == spec_scan_result(
            spec_scan(buffer.subrange(from, buffer.len() as int), plain, 0, value, max),
        ),
    decreases buffer.len() - from,
{
    let rest = buffer.subrange(from, buffer.len() as int);
    if from < buffer.len() {
        assert(rest[0] == buffer[from]);
        match spec_char_to_digit(buffer[from], plain.radix as int) {
            None => {},
            Some(digit) => {
                let next = value * plain.radix + digit;
                if next <= max {
                    lemma_peek_cursor(buffer, plain, from + 1);
                    lemma_peek_cursor(rest, plain, 1);
                    lemma_scan_of_suffix(buffer, plain, from + 1, next as nat, max);
                    lemma_scan_of_suffix(rest, plain, 1, next as nat, max);
                    assert(rest.subrange(1, rest.len() as int) == buffer.subrange(
                        from + 1,
                        buffer.len() as int,
                    ));
                }
            },
        }
    }
}

/// Where the separators stand as allowed, reading digits from an index
/// that holds no separator ends as reading them from the stripped bytes
/// does, with the same value.
pub proof fn lemma_scan_of_stripped(
    buffer: Seq<u8>,
    syntax: DigitSyntax,
    plain: DigitSyntax,
    at: int,
    value: nat,
    max: nat,
)
    requires
        spec_separators_allowed(buffer, syntax),
        plain.separator == 0,
        plain.radix == syntax.radix,
        0 <= at <= buffer.len(),
        at < buffer.len() ==> !spec_is_separator(buffer[at], syntax.separator),
    ensures
        spec_scan_result(spec_scan(buffer, syntax, at, value, max)) == spec_scan_result(
            spec_scan(spec_strip(buffer, syntax.separator, at), plain, 0, value, max),
        ),
    decreases buffer.len() - at,
{
    let stripped = spec_strip(buffer, syntax.separator, at);
    if at < buffer.len() {
        assert(stripped[0] == buffer[at]);
        match spec_char_to_digit(buffer[at], syntax.radix as int) {
            None => {},
            Some(digit) => {
                let next = value * syntax.radix + digit;
                if next <= max {
                    let behind = spec_peek_cursor(buffer, syntax, at + 1);
                    lemma_peek_skips_allowed(buffer, syntax, at + 1);
                    lemma_run_end(buffer, syntax.separator, at + 1);
                    lemma_strip_from_run_end(buffer, syntax.separator, at + 1);
                    lemma_scan_of_stripped(buffer, syntax, plain, behind, next as nat, max);
                    lemma_peek_cursor(stripped, plain, 1);
                    lemma_scan_of_suffix(stripped, plain, 1, next as nat, max);
                    assert(stripped.subrange(1, stripped.len() as int) == spec_strip(
                        buffer,
                        syntax.separator,
                        at + 1,
                    ));
                }
            },
        }
    }
}

/// What is stripped from an index that holds no separator starts with the
/// byte there; what is stripped from the end is empty.
pub proof fn lemma_strip_first(buffer: Seq<u8>, separator: u8, at: int)
    requires
        0 <= at <= buffer.len(),
        at < buffer.len() ==> !spec_is_separator(buffer[at], separator),
    ensures
        at < buffer.len() ==> spec_strip(buffer, separator, at).len() >= 1 && spec_strip(
            buffer,
            separator,
            at,
        )[0] == buffer[at] && spec_strip(buffer, separator, at).subrange(
            1,
            spec_strip(buffer, separator, at).len() as int,
        ) == spec_strip(buffer, separator, at + 1),
        at == buffer.len() ==> spec_strip(buffer, separator, at).len() == 0,
{
}

/// Where the separators stand as allowed, the sign read from the bytes is
/// the sign read from the bytes without the separators, and what follows
/// the one is, without its separators, what follows the other.
pub proof fn lemma_sign_of_stripped(buffer: Seq<u8>, format: u128, plain: u128, signed: bool)
    requires
        spec_is_plain_form(plain, format),
        spec_separators_allowed(buffer, spec_section_syntax(format, Section::Integer)),
    ensures
        match (
            spec_sign(buffer, format, signed),
            spec_sign(spec_strip(buffer, spec_digit_separator(format), 0), plain, signed),
        ) {
            (Ok(a), Ok(b)) => {
                &&& a.0 == b.0
                &&& 0 <= a.1 <= buffer.len()
                &&& 0 <= b.1 <= spec_strip(buffer, spec_digit_separator(format), 0).len()
                &&& a.1 < buffer.len() ==> !spec_is_separator(
                    buffer[a.1],
                    spec_digit_separator(format),
                )
                &&& spec_strip(buffer, spec_digit_separator(format), a.1) == spec_strip(
                    buffer,
                    spec_digit_separator(format),
                    0,
                ).subrange(b.1, spec_strip(buffer, spec_digit_separator(format), 0).len() as int)
            },
            (Err(a), Err(b)) => a.spec_same_kind(b),
            _ => false,
        },
{
    let syntax = spec_section_syntax(format, Section::Integer);
    let simple = spec_section_syntax(plain, Section::Integer);
    let separator = syntax.separator;
    let stripped = spec_strip(buffer, separator, 0);
    let len = buffer.len() as int;
    let first = spec_run_end(buffer, separator, 0);
    lemma_peek_skips_allowed(buffer, syntax, 0);
    lemma_run_end(buffer, separator, 0);
    lemma_strip_from_run_end(buffer, separator, 0);
    lemma_strip_first(buffer, separator, first);
    lemma_peek_cursor(stripped, simple, 0);
    assert(stripped.subrange(0, stripped.len() as int) == stripped);
    if first < len {
        let second = spec_run_end(buffer, separator, first + 1);
        lemma_peek_skips_allowed(buffer, syntax, first + 1);
        lemma_run_end(buffer, separator, first + 1);
        lemma_strip_from_run_end(buffer, separator, first + 1);
        lemma_peek_cursor(stripped, simple, 1);
        assert(stripped[0] == buffer[first]);
        assert(stripped.subrange(1, stripped.len() as int) == spec_strip(
            buffer,
            separator,
            second,
        ));
    }
}

/// Reading an integer from bytes whose separators stand where the format
/// allows them gives what reading the bytes without their separators
/// gives in the format without the separator: the same integer, or a
/// failure for the same reason.
pub proof fn lemma_separators_change_nothing(
    buffer: Seq<u8>,
    format: u128,
    plain: u128,
    limits: Limits,
    partial: bool,
)
    requires
        spec_is_valid(format),
        spec_is_plain_form(plain, format),
        spec_separators_allowed(buffer, spec_section_syntax(format, Section::Integer)),
    ensures
        spec_same_reading(
            spec_parse_integer(buffer, format, limits, partial),
            spec_parse_integer(
                spec_strip(buffer, spec_digit_separator(format), 0),
                plain,
                limits,
                partial,
            ),
        ),
{
    let syntax = spec_section_syntax(format, Section::Integer);
    let simple = spec_section_syntax(plain, Section::Integer);
    let separator = syntax.separator;
    let stripped = spec_strip(buffer, separator, 0);
    let len = buffer.len() as int;
    lemma_sign_of_stripped(buffer, format, plain, limits.min > 0);
    match spec_sign(buffer, format, limits.min > 0) {
        Err(error) => {},
        Ok((negative, start)) => {
            let sign = spec_sign(stripped, plain, limits.min > 0)->Ok_0;
            let begin = sign.1;
            let rest = spec_strip(buffer, separator, start);
            lemma_strip_first(buffer, separator, start);
            let max = if negative {
                limits.min
            } else {
                limits.max
            };
            if start < len {
                assert(stripped[begin] == rest[0]);
                // The digit behind a first zero.
                lemma_peek_skips_allowed(buffer, syntax, start + 1);
                lemma_run_end(buffer, separator, start + 1);
                lemma_strip_from_run_end(buffer, separator, start + 1);
                let second = spec_peek_cursor(buffer, syntax, start + 1);
                lemma_strip_first(buffer, separator, second);
                lemma_peek_cursor(stripped, simple, begin + 1);
                if begin + 1 < stripped.len() {
                    assert(stripped[begin + 1] == rest[1]);
                }
                assert(spec_peek(buffer, syntax, start + 1) == spec_peek(
                    stripped,
                    simple,
                    begin + 1,
                ));
                // The digits.
                lemma_scan_of_stripped(buffer, syntax, simple, start, 0, max as nat);
                lemma_scan_of_suffix(stripped, simple, begin, 0, max as nat);
            }
        },
    }
}

} // verus!
