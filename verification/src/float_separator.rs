//! Digit separators that stand where a format allows them change nothing
//! of the float that is read.

use crate::error::Error;
use crate::float::FloatKind;
use crate::format::{
    spec_base_prefix, spec_base_suffix, spec_digit_separator, spec_exponent_base,
    spec_exponent_radix, spec_has_flag, spec_is_valid, spec_mantissa_radix, Section,
    CASE_SENSITIVE_BASE_PREFIX, INTEGER_INTERNAL_DIGIT_SEPARATOR,
};
use crate::iterator::{lemma_run_end, spec_is_separator, spec_run_end, DigitSyntax};
use crate::lex::{
    spec_after_prefix, spec_exponent, spec_lex, spec_mantissa, spec_mantissa_error, spec_match,
    spec_number, spec_run, spec_same_byte, spec_special,
};
use crate::options::ParseOptions;
use crate::parse::spec_sign;
use crate::parse_float::spec_parse_float;
use crate::separator::{
    lemma_peek_skips_allowed, lemma_strip_first, lemma_strip_from_run_end,
    spec_separators_allowed, spec_strip,
};
use crate::skip::spec_section_syntax;
use vstd::prelude::*;

verus! {

/// Whether index `i` of `buffer` and index `j` of its bytes without the
/// separators are the same place: `i` holds no separator, and what follows
/// it is, without its separators, what follows `j`.
pub open spec fn spec_aligned(
    buffer: Seq<u8>,
    separator: u8,
    stripped: Seq<u8>,
    i: int,
    j: int,
) -> bool {
    &&& 0 <= i <= buffer.len()
    &&& 0 <= j <= stripped.len()
    &&& i < buffer.len() ==> !spec_is_separator(buffer[i], separator)
    &&& spec_strip(buffer, separator, i) == stripped.subrange(j, stripped.len() as int)
}

/// Two places that are the same hold the same byte, or are both the end;
/// behind them, the next places that are the same are the one behind the
/// separators that follow and the next index.
pub proof fn lemma_aligned_step(buffer: Seq<u8>, separator: u8, stripped: Seq<u8>, i: int, j: int)
    requires
        spec_aligned(buffer, separator, stripped, i, j),
    ensures
        i < buffer.len() <==> j < stripped.len(),
        i < buffer.len() ==> stripped[j] == buffer[i] && spec_aligned(
            buffer,
            separator,
            stripped,
            spec_run_end(buffer, separator, i + 1),
            j + 1,
        ) && i < spec_run_end(buffer, separator, i + 1),
        spec_run_end(buffer, separator, i) == i,
{
    let rest = stripped.subrange(j, stripped.len() as int);
    lemma_strip_first(buffer, separator, i);
    if i < buffer.len() {
        assert(rest.len() >= 1);
        assert(rest[0] == stripped[j]);
        lemma_run_end(buffer, separator, i + 1);
        lemma_strip_from_run_end(buffer, separator, i + 1);
        assert(rest.subrange(1, rest.len() as int) == stripped.subrange(
            j + 1,
            stripped.len() as int,
        ));
    } else {
        assert(rest.len() == 0);
    }
}

/// The first byte that is no separator and the start of the bytes without
/// the separators are the same place.
pub proof fn lemma_aligned_start(buffer: Seq<u8>, separator: u8)
    ensures
        spec_aligned(
            buffer,
            separator,
            spec_strip(buffer, separator, 0),
            spec_run_end(buffer, separator, 0),
            0,
        ),
{
    let stripped = spec_strip(buffer, separator, 0);
    lemma_run_end(buffer, separator, 0);
    lemma_strip_from_run_end(buffer, separator, 0);
    assert(stripped.subrange(0, stripped.len() as int) == stripped);
}

/// Where the separators stand as allowed, a run of digits read from the
/// bytes is the run read at the same place of the bytes without the
/// separators: the same value, as many digits, and the same place behind.
pub proof fn lemma_run_stripped(
    buffer: Seq<u8>,
    syntax: DigitSyntax,
    plain: DigitSyntax,
    stripped: Seq<u8>,
    at: int,
    j: int,
    value: nat,
    count: nat,
)
    requires
        spec_separators_allowed(buffer, syntax),
        plain.separator == 0,
        plain.radix == syntax.radix,
        spec_aligned(buffer, syntax.separator, stripped, at, j),
    ensures
        spec_run(buffer, syntax, at, value, count).value == spec_run(
            stripped,
            plain,
            j,
            value,
            count,
        ).value,
        spec_run(buffer, syntax, at, value, count).count == spec_run(
            stripped,
            plain,
            j,
            value,
            count,
        ).count,
        spec_aligned(
            buffer,
            syntax.separator,
            stripped,
            spec_run(buffer, syntax, at, value, count).at,
            spec_run(stripped, plain, j, value, count).at,
        ),
    decreases buffer.len() - at,
{
    lemma_aligned_step(buffer, syntax.separator, stripped, at, j);
    if at < buffer.len() {
        match crate::digit::spec_char_to_digit(buffer[at], syntax.radix as int) {
            None => {},
            Some(digit) => {
                lemma_peek_skips_allowed(buffer, syntax, at + 1);
                lemma_run_stripped(
                    buffer,
                    syntax,
                    plain,
                    stripped,
                    spec_run_end(buffer, syntax.separator, at + 1),
                    j + 1,
                    (value * syntax.radix + digit) as nat,
                    count + 1,
                );
            },
        }
    }
}

/// Where the separators stand as allowed, a literal matches the bytes
/// where it matches the bytes without the separators, and both matches end
/// at the same place.
pub proof fn lemma_match_stripped(
    buffer: Seq<u8>,
    syntax: DigitSyntax,
    plain: DigitSyntax,
    stripped: Seq<u8>,
    at: int,
    j: int,
    literal: Seq<u8>,
    index: int,
    cased: bool,
)
    requires
        spec_separators_allowed(buffer, syntax),
        plain.separator == 0,
        0 <= at <= buffer.len(),
        spec_aligned(
            buffer,
            syntax.separator,
            stripped,
            spec_run_end(buffer, syntax.separator, at),
            j,
        ),
    ensures
        spec_match(buffer, syntax, at, literal, index, cased) is Some <==> spec_match(
            stripped,
            plain,
            j,
            literal,
            index,
            cased,
        ) is Some,
        spec_match(buffer, syntax, at, literal, index, cased) matches Some(end) ==> 0 <= end
            <= buffer.len() && spec_aligned(
            buffer,
            syntax.separator,
            stripped,
            spec_run_end(buffer, syntax.separator, end),
            spec_match(stripped, plain, j, literal, index, cased)->0,
        ),
    decreases literal.len() - index,
{
    if 0 <= index < literal.len() {
        let here = spec_run_end(buffer, syntax.separator, at);
        lemma_peek_skips_allowed(buffer, syntax, at);
        lemma_aligned_step(buffer, syntax.separator, stripped, here, j);
        if here < buffer.len() && spec_same_byte(buffer[here], literal[index], cased) {
            lemma_match_stripped(
                buffer,
                syntax,
                plain,
                stripped,
                here + 1,
                j + 1,
                literal,
                index + 1,
                cased,
            );
        }
    }
}

/// Whether `plain` is `format` without its separator: a format with the
/// same radices, prefix, suffix and flags on the syntax, whose digits lie
/// side by side.
pub open spec fn spec_is_plain_float_form(plain: u128, format: u128) -> bool {
    &&& spec_digit_separator(plain) == 0
    &&& spec_mantissa_radix(plain) == spec_mantissa_radix(format)
    &&& spec_exponent_base(plain) == spec_exponent_base(format)
    &&& spec_exponent_radix(plain) == spec_exponent_radix(format)
    &&& spec_base_prefix(plain) == spec_base_prefix(format)
    &&& spec_base_suffix(plain) == spec_base_suffix(format)
    &&& forall|flag: u128|
        flag < INTEGER_INTERNAL_DIGIT_SEPARATOR ==> (#[trigger] spec_has_flag(plain, flag))
            == spec_has_flag(format, flag)
}

/// Whether every separator of `buffer` stands where the digits of the
/// integer, of the fraction and of the exponent all let one stand.
pub open spec fn spec_number_separators_allowed(buffer: Seq<u8>, format: u128) -> bool {
    &&& spec_separators_allowed(buffer, spec_section_syntax(format, Section::Integer))
    &&& spec_separators_allowed(buffer, spec_section_syntax(format, Section::Fraction))
    &&& spec_separators_allowed(buffer, spec_section_syntax(format, Section::Exponent))
}

/// Whether the text behind the sign of `buffer` is that of a special
/// value.
pub open spec fn spec_reads_special(buffer: Seq<u8>, format: u128, options: ParseOptions) -> bool {
    match spec_sign(buffer, format, true) {
        Ok((negative, start)) => spec_special(buffer, format, options, start) is Some,
        Err(error) => false,
    }
}

/// Whether a separator stands between the `0` at `start` and the base
/// prefix, or in the place of the prefix.
pub open spec fn spec_prefix_parted_at(buffer: Seq<u8>, format: u128, start: int) -> bool {
    let separator = spec_digit_separator(format);
    let prefix = spec_base_prefix(format);
    let cased = spec_has_flag(format, CASE_SENSITIVE_BASE_PREFIX);
    let next = spec_run_end(buffer, separator, start + 1);
    &&& prefix != 0
    &&& 0 <= start
    &&& start + 1 < buffer.len()
    &&& buffer[start] == 48
    &&& spec_is_separator(buffer[start + 1], separator)
    &&& spec_same_byte(buffer[start + 1], prefix, cased) || (next < buffer.len()
        && spec_same_byte(buffer[next], prefix, cased))
}

/// Whether a separator parts the base prefix of the number in `buffer`
/// from its `0`.
pub open spec fn spec_prefix_parted(buffer: Seq<u8>, format: u128) -> bool {
    match spec_sign(buffer, format, true) {
        Ok((negative, start)) => spec_prefix_parted_at(buffer, format, start),
        Err(error) => false,
    }
}

/// Whether separators, and nothing else, follow the float at the start of
/// `buffer`.
pub open spec fn spec_separators_trail(buffer: Seq<u8>, format: u128, options: ParseOptions) -> bool {
    match spec_lex(buffer, format, options, true) {
        Ok(lexed) => lexed.consumed < buffer.len() && spec_run_end(
            buffer,
            spec_digit_separator(format),
            lexed.consumed,
        ) == buffer.len(),
        Err(error) => false,
    }
}

/// Whether two readings agree: both give the same float, or both fail for
/// the same reason.
pub open spec fn spec_same_float_reading(
    a: Result<(int, int), Error>,
    b: Result<(int, int), Error>,
) -> bool {
    match (a, b) {
        (Ok(x), Ok(y)) => x.0 == y.0,
        (Err(x), Err(y)) => x.spec_same_kind(y),
        _ => false,
    }
}

/// Where the separators stand as allowed, the sign read from the bytes is
/// the sign read from the bytes without the separators, and the same
/// place follows it.
pub proof fn lemma_sign_stripped(buffer: Seq<u8>, format: u128, plain: u128, signed: bool)
    requires
        spec_is_plain_float_form(plain, format),
        spec_separators_allowed(buffer, spec_section_syntax(format, Section::Integer)),
    ensures
        match (
            spec_sign(buffer, format, signed),
            spec_sign(spec_strip(buffer, spec_digit_separator(format), 0), plain, signed),
        ) {
            (Ok(a), Ok(b)) => a.0 == b.0 && spec_aligned(
                buffer,
                spec_digit_separator(format),
                spec_strip(buffer, spec_digit_separator(format), 0),
                a.1,
                b.1,
            ),
            (Err(a), Err(b)) => a.spec_same_kind(b),
            _ => false,
        },
{
    let syntax = spec_section_syntax(format, Section::Integer);
    let separator = spec_digit_separator(format);
    let stripped = spec_strip(buffer, separator, 0);
    let first = spec_run_end(buffer, separator, 0);
    lemma_peek_skips_allowed(buffer, syntax, 0);
    lemma_aligned_start(buffer, separator);
    lemma_aligned_step(buffer, separator, stripped, first, 0);
    if first < buffer.len() {
        lemma_peek_skips_allowed(buffer, syntax, first + 1);
    }
}

/// Where the separators stand as the special values allow them, a special
/// value is read from the bytes where one is read from the bytes without
/// the separators: the same one, up to the same place.
pub proof fn lemma_special_stripped(
    buffer: Seq<u8>,
    format: u128,
    plain: u128,
    options: ParseOptions,
    stripped: Seq<u8>,
    start: int,
    j: int,
)
    requires
        spec_is_plain_float_form(plain, format),
        spec_separators_allowed(buffer, spec_section_syntax(format, Section::Special)),
        spec_aligned(buffer, spec_digit_separator(format), stripped, start, j),
    ensures
        match (
            spec_special(buffer, format, options, start),
            spec_special(stripped, plain, options, j),
        ) {
            (Some(a), Some(b)) => a.0 == b.0 && spec_aligned(
                buffer,
                spec_digit_separator(format),
                stripped,
                a.1,
                b.1,
            ),
            (None, None) => true,
            _ => false,
        },
{
    let syntax = spec_section_syntax(format, Section::Special);
    let simple = spec_section_syntax(plain, Section::Special);
    let separator = spec_digit_separator(format);
    let cased = spec_has_flag(format, crate::format::CASE_SENSITIVE_SPECIAL);
    assert(cased == spec_has_flag(plain, crate::format::CASE_SENSITIVE_SPECIAL));
    assert(spec_has_flag(format, crate::format::NO_SPECIAL) == spec_has_flag(
        plain,
        crate::format::NO_SPECIAL,
    ));
    lemma_aligned_step(buffer, separator, stripped, start, j);
    if let Some(literal) = options.nan_string {
        lemma_match_stripped(buffer, syntax, simple, stripped, start, j, literal@, 0, cased);
        if let Some(end) = spec_match(buffer, syntax, start, literal@, 0, cased) {
            lemma_peek_skips_allowed(buffer, syntax, end);
        }
    }
    if let Some(literal) = options.inf_string {
        lemma_match_stripped(buffer, syntax, simple, stripped, start, j, literal@, 0, cased);
        if let Some(end) = spec_match(buffer, syntax, start, literal@, 0, cased) {
            lemma_peek_skips_allowed(buffer, syntax, end);
        }
    }
}

/// Where the separators stand as allowed and none parts the base prefix,
/// the mantissa read from the bytes is the mantissa read from the bytes
/// without the separators.
pub proof fn lemma_mantissa_stripped(
    buffer: Seq<u8>,
    format: u128,
    plain: u128,
    options: ParseOptions,
    stripped: Seq<u8>,
    start: int,
    j: int,
)
    requires
        spec_is_valid(format),
        spec_is_plain_float_form(plain, format),
        spec_number_separators_allowed(buffer, format),
        !spec_prefix_parted_at(buffer, format, start),
        spec_aligned(buffer, spec_digit_separator(format), stripped, start, j),
    ensures
        ({
            let a = spec_mantissa(buffer, format, options, start);
            let b = spec_mantissa(stripped, plain, options, j);
            &&& a.value == b.value
            &&& a.whole_count == b.whole_count
            &&& a.part_count == b.part_count
            &&& a.pointed == b.pointed
            &&& spec_aligned(buffer, spec_digit_separator(format), stripped, a.begin, b.begin)
            &&& spec_aligned(buffer, spec_digit_separator(format), stripped, a.at, b.at)
            &&& a.whole_count > 0 ==> a.begin < buffer.len()
        }),
{
    let integer = spec_section_syntax(format, Section::Integer);
    let fraction = spec_section_syntax(format, Section::Fraction);
    let simple = spec_section_syntax(plain, Section::Integer);
    let part = spec_section_syntax(plain, Section::Fraction);
    let separator = spec_digit_separator(format);
    let cased = spec_has_flag(format, CASE_SENSITIVE_BASE_PREFIX);
    assert(cased == spec_has_flag(plain, CASE_SENSITIVE_BASE_PREFIX));
    // The base prefix.
    lemma_aligned_step(buffer, separator, stripped, start, j);
    if start < buffer.len() {
        let next = spec_run_end(buffer, separator, start + 1);
        lemma_aligned_step(buffer, separator, stripped, next, j + 1);
        lemma_run_end(buffer, separator, start + 1);
        if next < buffer.len() {
            lemma_peek_skips_allowed(buffer, integer, next + 1);
        }
        if start + 1 < buffer.len() && !spec_is_separator(buffer[start + 1], separator) {
            assert(next == start + 1);
        }
    }
    let begin = spec_after_prefix(buffer, format, start);
    let first = spec_after_prefix(stripped, plain, j);
    assert(spec_aligned(buffer, separator, stripped, begin, first));
    // The digits before the point.
    lemma_run_stripped(buffer, integer, simple, stripped, begin, first, 0, 0);
    let whole = spec_run(buffer, integer, begin, 0, 0);
    let whole_plain = spec_run(stripped, simple, first, 0, 0);
    lemma_aligned_step(buffer, separator, stripped, whole.at, whole_plain.at);
    // The digits behind it.
    if whole.at < buffer.len() && buffer[whole.at] == options.decimal_point {
        lemma_peek_skips_allowed(buffer, fraction, whole.at + 1);
        lemma_run_stripped(
            buffer,
            fraction,
            part,
            stripped,
            spec_run_end(buffer, separator, whole.at + 1),
            whole_plain.at + 1,
            whole.value,
            0,
        );
    }
}

/// Where the separators stand as allowed, the exponent read from the
/// bytes is the exponent read from the bytes without the separators.
pub proof fn lemma_exponent_stripped(
    buffer: Seq<u8>,
    format: u128,
    plain: u128,
    options: ParseOptions,
    stripped: Seq<u8>,
    at: int,
    j: int,
    fraction_digits: nat,
)
    requires
        spec_is_plain_float_form(plain, format),
        spec_separators_allowed(buffer, spec_section_syntax(format, Section::Exponent)),
        spec_aligned(buffer, spec_digit_separator(format), stripped, at, j),
    ensures
        match (
            spec_exponent(buffer, format, options, at, fraction_digits),
            spec_exponent(stripped, plain, options, j, fraction_digits),
        ) {
            (Ok(a), Ok(b)) => a.0 == b.0 && spec_aligned(
                buffer,
                spec_digit_separator(format),
                stripped,
                a.1,
                b.1,
            ),
            (Err(a), Err(b)) => a.spec_same_kind(b),
            _ => false,
        },
{
    let syntax = spec_section_syntax(format, Section::Exponent);
    let simple = spec_section_syntax(plain, Section::Exponent);
    let separator = spec_digit_separator(format);
    assert(spec_has_flag(format, crate::format::NO_EXPONENT_NOTATION) == spec_has_flag(
        plain,
        crate::format::NO_EXPONENT_NOTATION,
    ));
    assert(spec_has_flag(format, crate::format::REQUIRED_EXPONENT_NOTATION) == spec_has_flag(
        plain,
        crate::format::REQUIRED_EXPONENT_NOTATION,
    ));
    assert(spec_has_flag(format, crate::format::NO_EXPONENT_WITHOUT_FRACTION) == spec_has_flag(
        plain,
        crate::format::NO_EXPONENT_WITHOUT_FRACTION,
    ));
    assert(spec_has_flag(format, crate::format::NO_POSITIVE_EXPONENT_SIGN) == spec_has_flag(
        plain,
        crate::format::NO_POSITIVE_EXPONENT_SIGN,
    ));
    assert(spec_has_flag(format, crate::format::REQUIRED_EXPONENT_SIGN) == spec_has_flag(
        plain,
        crate::format::REQUIRED_EXPONENT_SIGN,
    ));
    assert(spec_has_flag(format, crate::format::REQUIRED_EXPONENT_DIGITS) == spec_has_flag(
        plain,
        crate::format::REQUIRED_EXPONENT_DIGITS,
    ));
    lemma_aligned_step(buffer, separator, stripped, at, j);
    if at < buffer.len() {
        let sign_at = spec_run_end(buffer, separator, at + 1);
        lemma_peek_skips_allowed(buffer, syntax, at + 1);
        lemma_aligned_step(buffer, separator, stripped, sign_at, j + 1);
        if sign_at < buffer.len() {
            let behind = spec_run_end(buffer, separator, sign_at + 1);
            lemma_peek_skips_allowed(buffer, syntax, sign_at + 1);
            lemma_run_stripped(buffer, syntax, simple, stripped, behind, j + 2, 0, 0);
        }
        lemma_run_stripped(buffer, syntax, simple, stripped, sign_at, j + 1, 0, 0);
    }
}

/// Where the separators stand as allowed, a float's text is taken apart
/// as its bytes without the separators are: into the same sign and the
/// same number or special value, or for the same reason not at all.
pub proof fn lemma_lexed_stripped(
    buffer: Seq<u8>,
    format: u128,
    plain: u128,
    options: ParseOptions,
    partial: bool,
)
    requires
        spec_is_valid(format),
        spec_is_plain_float_form(plain, format),
        spec_number_separators_allowed(buffer, format),
        spec_separators_allowed(buffer, spec_section_syntax(format, Section::Special)) || (
        !spec_reads_special(buffer, format, options) && !spec_reads_special(
            spec_strip(buffer, spec_digit_separator(format), 0),
            plain,
            options,
        )),
        !spec_prefix_parted(buffer, format),
        partial || !spec_separators_trail(buffer, format, options),
    ensures
        match (
            spec_lex(buffer, format, options, partial),
            spec_lex(spec_strip(buffer, spec_digit_separator(format), 0), plain, options, partial),
        ) {
            (Ok(a), Ok(b)) => a.negative == b.negative && a.lexeme == b.lexeme,
            (Err(a), Err(b)) => a.spec_same_kind(b),
            _ => false,
        },
{
    let separator = spec_digit_separator(format);
    let stripped = spec_strip(buffer, separator, 0);
    lemma_sign_stripped(buffer, format, plain, true);
    match spec_sign(buffer, format, true) {
        Err(error) => {},
        Ok((negative, start)) => {
            let sign = spec_sign(stripped, plain, true)->Ok_0;
            let j = sign.1;
            lemma_aligned_step(buffer, separator, stripped, start, j);
            if start < buffer.len() {
                if spec_separators_allowed(buffer, spec_section_syntax(format, Section::Special)) {
                    lemma_special_stripped(buffer, format, plain, options, stripped, start, j);
                }
                match spec_special(buffer, format, options, start) {
                    Some((lexeme, end)) => {
                        let found = spec_special(stripped, plain, options, j)->0;
                        let behind = found.1;
                        lemma_aligned_step(buffer, separator, stripped, end, behind);
                    },
                    None => {
                        lemma_number_stripped(buffer, format, plain, options, stripped, start, j);
                        let whole = spec_lex(buffer, format, options, true);
                        match spec_number(buffer, format, options, start) {
                            Err(error) => {},
                            Ok((lexeme, end)) => {
                                let found = spec_number(stripped, plain, options, j)->Ok_0;
                                assert(whole is Ok && whole->Ok_0.consumed == end);
                                lemma_run_end(buffer, separator, end);
                                lemma_aligned_step(
                                    buffer,
                                    separator,
                                    stripped,
                                    spec_run_end(buffer, separator, end),
                                    found.1,
                                );
                            },
                        }
                    },
                }
            }
        },
    }
}

/// Where the separators stand as allowed and none parts the base prefix,
/// the number read from the bytes is the number read from the bytes
/// without the separators; the places behind the two are the same, or the
/// one in the bytes is that of a separator behind the base suffix.
pub proof fn lemma_number_stripped(
    buffer: Seq<u8>,
    format: u128,
    plain: u128,
    options: ParseOptions,
    stripped: Seq<u8>,
    start: int,
    j: int,
)
    requires
        spec_is_valid(format),
        spec_is_plain_float_form(plain, format),
        spec_number_separators_allowed(buffer, format),
        !spec_prefix_parted_at(buffer, format, start),
        spec_aligned(buffer, spec_digit_separator(format), stripped, start, j),
    ensures
        match (
            spec_number(buffer, format, options, start),
            spec_number(stripped, plain, options, j),
        ) {
            (Ok(a), Ok(b)) => {
                &&& a.0 == b.0
                &&& 0 <= a.1 <= buffer.len()
                &&& 0 <= b.1 <= stripped.len()
                &&& spec_aligned(
                    buffer,
                    spec_digit_separator(format),
                    stripped,
                    spec_run_end(buffer, spec_digit_separator(format), a.1),
                    b.1,
                )
            },
            (Err(a), Err(b)) => a.spec_same_kind(b),
            _ => false,
        },
{
    let separator = spec_digit_separator(format);
    lemma_mantissa_stripped(buffer, format, plain, options, stripped, start, j);
    let a = spec_mantissa(buffer, format, options, start);
    let b = spec_mantissa(stripped, plain, options, j);
    lemma_aligned_step(buffer, separator, stripped, a.begin, b.begin);
    assert(spec_has_flag(format, crate::format::NO_FLOAT_LEADING_ZEROS) == spec_has_flag(
        plain,
        crate::format::NO_FLOAT_LEADING_ZEROS,
    ));
    assert(spec_has_flag(format, crate::format::REQUIRED_INTEGER_DIGITS) == spec_has_flag(
        plain,
        crate::format::REQUIRED_INTEGER_DIGITS,
    ));
    assert(spec_has_flag(format, crate::format::NO_FRACTION_WITHOUT_INTEGER) == spec_has_flag(
        plain,
        crate::format::NO_FRACTION_WITHOUT_INTEGER,
    ));
    assert(spec_has_flag(format, crate::format::REQUIRED_FRACTION_DIGITS) == spec_has_flag(
        plain,
        crate::format::REQUIRED_FRACTION_DIGITS,
    ));
    assert(spec_has_flag(format, crate::format::CASE_SENSITIVE_BASE_SUFFIX) == spec_has_flag(
        plain,
        crate::format::CASE_SENSITIVE_BASE_SUFFIX,
    ));
    match spec_mantissa_error(a, buffer, format) {
        Some(error) => {},
        None => {
            lemma_exponent_stripped(
                buffer,
                format,
                plain,
                options,
                stripped,
                a.at,
                b.at,
                a.part_count,
            );
            match spec_exponent(buffer, format, options, a.at, a.part_count) {
                Err(error) => {},
                Ok((exponent, at)) => {
                    let found = spec_exponent(stripped, plain, options, b.at, b.part_count)->Ok_0;
                    let behind = found.1;
                    lemma_aligned_step(buffer, separator, stripped, at, behind);
                },
            }
        },
    }
}

/// Reading a float from bytes whose separators stand where the format
/// allows them gives what reading the bytes without their separators
/// gives in the format without the separator: the same float, or a
/// failure for the same reason.
///
/// The separators stand where the digits of every part of a number allow
/// them, and where special values allow them unless neither text is that
/// of a special value. None parts a base prefix from its `0`, and in a
/// whole reading none follows the float's last byte.
pub proof fn lemma_separators_change_no_float(
    buffer: Seq<u8>,
    format: u128,
    plain: u128,
    options: ParseOptions,
    kind: FloatKind,
    partial: bool,
)
    requires
        spec_is_valid(format),
        spec_is_plain_float_form(plain, format),
        spec_number_separators_allowed(buffer, format),
        spec_separators_allowed(buffer, spec_section_syntax(format, Section::Special)) || (
        !spec_reads_special(buffer, format, options) && !spec_reads_special(
            spec_strip(buffer, spec_digit_separator(format), 0),
            plain,
            options,
        )),
        !spec_prefix_parted(buffer, format),
        partial || !spec_separators_trail(buffer, format, options),
    ensures
        spec_same_float_reading(
            spec_parse_float(buffer, format, options, kind, partial),
            spec_parse_float(
                spec_strip(buffer, spec_digit_separator(format), 0),
                plain,
                options,
                kind,
                partial,
            ),
        ),
{
    lemma_lexed_stripped(buffer, format, plain, options, partial);
}

} // verus!
