//! Taking the text of a float apart: its sign, then NaN or infinity, or
//! the digits of the mantissa around the decimal point and the exponent.

use crate::bigint::Bigint;
use crate::digit::{char_to_digit, spec_char_to_digit, spec_to_ascii_lowercase, to_ascii_lowercase};
use crate::error::Error;
use crate::format::{
    base_prefix, base_suffix, has_flag, spec_base_prefix, spec_base_suffix, spec_has_flag,
    spec_is_valid, Section, CASE_SENSITIVE_BASE_PREFIX, CASE_SENSITIVE_BASE_SUFFIX,
    CASE_SENSITIVE_SPECIAL, NO_EXPONENT_NOTATION, NO_EXPONENT_WITHOUT_FRACTION,
    NO_FLOAT_LEADING_ZEROS, NO_FRACTION_WITHOUT_INTEGER, NO_POSITIVE_EXPONENT_SIGN,
    NO_POSITIVE_MANTISSA_SIGN, NO_SPECIAL, REQUIRED_EXPONENT_DIGITS, REQUIRED_EXPONENT_NOTATION,
    REQUIRED_EXPONENT_SIGN, REQUIRED_FRACTION_DIGITS, REQUIRED_INTEGER_DIGITS,
    REQUIRED_MANTISSA_SIGN,
};
use crate::iterator::{
    lemma_peek_cursor, spec_peek, spec_peek_cursor, DigitSyntax, DigitsIter, Iter,
};
use crate::options::ParseOptions;
use crate::parse::spec_sign;
use crate::skip::{spec_section_syntax, Bytes, DigitsIterator};
use vstd::prelude::*;

verus! {

/// The largest size that an exponent is counted to. No input is long
/// enough for a larger exponent to make a difference.
pub const EXPONENT_CAP: u128 = 0x10_0000_0000_0000_0000_0000_0000;

/// A run of digits that was read: the number it made of the value before
/// it, how many digits it has, and the index of the byte behind it.
pub struct Run {
    pub value: nat,
    pub count: nat,
    pub at: int,
}

/// Reads digits from index `at` on, as long as digits come, skipping
/// after each the separators that may be skipped there.
pub open spec fn spec_run(buffer: Seq<u8>, syntax: DigitSyntax, at: int, value: nat, count: nat) -> Run
    decreases buffer.len() - at,
{
    if at < 0 || at >= buffer.len() {
        Run { value, count, at }
    } else {
        match spec_char_to_digit(buffer[at], syntax.radix as int) {
            None => Run { value, count, at },
            Some(digit) => {
                proof {
                    lemma_peek_cursor(buffer, syntax, at + 1);
                }
                spec_run(
                    buffer,
                    syntax,
                    spec_peek_cursor(buffer, syntax, at + 1),
                    (value * syntax.radix + digit) as nat,
                    count + 1,
                )
            },
        }
    }
}

/// Whether two bytes are the same, letters compared with their case only
/// where `cased` is set.
pub open spec fn spec_same_byte(a: u8, b: u8, cased: bool) -> bool {
    if cased {
        a == b
    } else {
        spec_to_ascii_lowercase(a) == spec_to_ascii_lowercase(b)
    }
}

/// Matches the bytes of `literal` from `index` on against what a cursor at
/// `at` yields, and gives the index behind the last byte matched.
pub open spec fn spec_match(
    buffer: Seq<u8>,
    syntax: DigitSyntax,
    at: int,
    literal: Seq<u8>,
    index: int,
    cased: bool,
) -> Option<int>
    decreases literal.len() - index,
{
    if index < 0 || index >= literal.len() {
        Some(at)
    } else {
        let here = spec_peek_cursor(buffer, syntax, at);
        if 0 <= here < buffer.len() && spec_same_byte(buffer[here], literal[index], cased) {
            spec_match(buffer, syntax, here + 1, literal, index + 1, cased)
        } else {
            None
        }
    }
}

/// What the text of a float says it is.
pub enum Lexeme {
    /// Not a number.
    Nan,
    /// Infinity.
    Inf,
    /// The number `mantissa / radix^fraction_digits * base^exponent`.
    Number { mantissa: nat, fraction_digits: nat, exponent: int },
}

/// A float's text taken apart: its sign, what it says, and the index
/// behind it.
pub struct Lexed {
    pub negative: bool,
    pub lexeme: Lexeme,
    pub consumed: int,
}

/// The literal of a special value matched at `start`, if the format reads
/// special values and one of the two literals stands there. NaN is tried
/// first. An empty literal matches nothing.
pub open spec fn spec_special(
    buffer: Seq<u8>,
    format: u128,
    options: ParseOptions,
    start: int,
) -> Option<(Lexeme, int)> {
    let syntax = spec_section_syntax(format, Section::Special);
    let cased = spec_has_flag(format, CASE_SENSITIVE_SPECIAL);
    let nan = match options.nan_string {
        Some(literal) => if literal@.len() > 0 {
            spec_match(buffer, syntax, start, literal@, 0, cased)
        } else {
            None
        },
        None => None,
    };
    let inf = match options.inf_string {
        Some(literal) => if literal@.len() > 0 {
            spec_match(buffer, syntax, start, literal@, 0, cased)
        } else {
            None
        },
        None => None,
    };
    if spec_has_flag(format, NO_SPECIAL) {
        None
    } else if nan is Some {
        Some((Lexeme::Nan, spec_peek_cursor(buffer, syntax, nan->0)))
    } else if inf is Some {
        Some((Lexeme::Inf, spec_peek_cursor(buffer, syntax, inf->0)))
    } else {
        None
    }
}

/// The index behind the base prefix at `start`: behind a `0` and the
/// prefix of the format where they stand there, else `start` itself.
pub open spec fn spec_after_prefix(buffer: Seq<u8>, format: u128, start: int) -> int {
    let prefix = spec_base_prefix(format);
    if prefix != 0 && 0 <= start && start + 1 < buffer.len() && buffer[start] == 48
        && spec_same_byte(
        buffer[start + 1],
        prefix,
        spec_has_flag(format, CASE_SENSITIVE_BASE_PREFIX),
    ) {
        spec_peek_cursor(buffer, spec_section_syntax(format, Section::Integer), start + 2)
    } else {
        start
    }
}

/// The exponent that stands at `at`, behind the mantissa: its value and
/// the index behind it. Without an exponent character there, the exponent
/// is 0 and nothing is taken.
pub open spec fn spec_exponent(
    buffer: Seq<u8>,
    format: u128,
    options: ParseOptions,
    at: int,
    fraction_digits: nat,
) -> Result<(int, int), Error> {
    let syntax = spec_section_syntax(format, Section::Exponent);
    let marked = !spec_has_flag(format, NO_EXPONENT_NOTATION) && 0 <= at < buffer.len()
        && spec_same_byte(buffer[at], options.exponent, false);
    if !marked {
        if spec_has_flag(format, REQUIRED_EXPONENT_NOTATION) {
            Err(Error::EmptyExponent)
        } else {
            Ok((0, at))
        }
    } else if spec_has_flag(format, NO_EXPONENT_WITHOUT_FRACTION) && fraction_digits == 0 {
        Err(Error::ExponentWithoutFraction(at as usize))
    } else {
        let sign_at = spec_peek_cursor(buffer, syntax, at + 1);
        let byte = spec_peek(buffer, syntax, at + 1);
        let behind = spec_peek_cursor(buffer, syntax, sign_at + 1);
        if byte == Some(43u8) && spec_has_flag(format, NO_POSITIVE_EXPONENT_SIGN) {
            Err(Error::InvalidPositiveExponentSign(sign_at as usize))
        } else if byte != Some(43u8) && byte != Some(45u8) && spec_has_flag(
            format,
            REQUIRED_EXPONENT_SIGN,
        ) {
            Err(Error::MissingExponentSign(sign_at as usize))
        } else {
            let run = spec_run(
                buffer,
                syntax,
                if byte == Some(43u8) || byte == Some(45u8) {
                    behind
                } else {
                    sign_at
                },
                0,
                0,
            );
            if run.count == 0 && spec_has_flag(format, REQUIRED_EXPONENT_DIGITS) {
                Err(Error::EmptyExponent)
            } else if byte == Some(45u8) {
                Ok((-(run.value as int), run.at))
            } else {
                Ok((run.value as int, run.at))
            }
        }
    }
}

/// The digits of a mantissa: the number they denote without regard to the
/// decimal point, how many stand before and behind the point, whether
/// there is a point, and the indices of the first digit and behind the
/// last.
pub struct Mantissa {
    pub value: nat,
    pub whole_count: nat,
    pub part_count: nat,
    pub pointed: bool,
    pub begin: int,
    pub at: int,
}

/// The mantissa that stands at `start`, behind the sign: an optional base
/// prefix, the integer digits, and the decimal point with the fraction
/// digits.
pub open spec fn spec_mantissa(
    buffer: Seq<u8>,
    format: u128,
    options: ParseOptions,
    start: int,
) -> Mantissa {
    let integer = spec_section_syntax(format, Section::Integer);
    let fraction = spec_section_syntax(format, Section::Fraction);
    let begin = spec_after_prefix(buffer, format, start);
    let whole = spec_run(buffer, integer, begin, 0, 0);
    let pointed = 0 <= whole.at < buffer.len() && buffer[whole.at] == options.decimal_point;
    let part = if pointed {
        spec_run(buffer, fraction, spec_peek_cursor(buffer, fraction, whole.at + 1), whole.value, 0)
    } else {
        Run { value: whole.value, count: 0, at: whole.at }
    };
    Mantissa {
        value: part.value,
        whole_count: whole.count,
        part_count: part.count,
        pointed,
        begin,
        at: part.at,
    }
}

/// Why a mantissa is refused, if it is: for a zero before other integer
/// digits where the format forbids it, for having no digit at all, no
/// integer digit where the format asks for one, or no fraction digit
/// behind a point where the format asks for one.
pub open spec fn spec_mantissa_error(mantissa: Mantissa, buffer: Seq<u8>, format: u128) -> Option<
    Error,
> {
    if spec_has_flag(format, NO_FLOAT_LEADING_ZEROS) && mantissa.whole_count > 1
        && buffer[mantissa.begin] == 48 {
        Some(Error::InvalidLeadingZeros(mantissa.begin as usize))
    } else if mantissa.whole_count == 0 && mantissa.part_count == 0 {
        Some(Error::EmptyMantissa)
    } else if mantissa.whole_count == 0 && (spec_has_flag(format, REQUIRED_INTEGER_DIGITS)
        || spec_has_flag(format, NO_FRACTION_WITHOUT_INTEGER)) {
        Some(Error::EmptyInteger)
    } else if mantissa.pointed && mantissa.part_count == 0 && spec_has_flag(
        format,
        REQUIRED_FRACTION_DIGITS,
    ) {
        Some(Error::EmptyFraction)
    } else {
        None
    }
}

/// The index behind the base suffix at `at`, or `at` itself where none
/// stands there.
pub open spec fn spec_after_suffix(buffer: Seq<u8>, format: u128, at: int) -> int {
    let suffix = spec_base_suffix(format);
    if suffix != 0 && 0 <= at < buffer.len() && spec_same_byte(
        buffer[at],
        suffix,
        spec_has_flag(format, CASE_SENSITIVE_BASE_SUFFIX),
    ) {
        at + 1
    } else {
        at
    }
}

/// The number that stands at `start`, behind the sign: the mantissa, the
/// exponent, and an optional base suffix.
pub open spec fn spec_number(
    buffer: Seq<u8>,
    format: u128,
    options: ParseOptions,
    start: int,
) -> Result<(Lexeme, int), Error> {
    let mantissa = spec_mantissa(buffer, format, options, start);
    match spec_mantissa_error(mantissa, buffer, format) {
        Some(error) => Err(error),
        None => match spec_exponent(buffer, format, options, mantissa.at, mantissa.part_count) {
            Err(error) => Err(error),
            Ok((exponent, at)) => Ok(
                (
                    Lexeme::Number {
                        mantissa: mantissa.value,
                        fraction_digits: mantissa.part_count,
                        exponent,
                    },
                    spec_after_suffix(buffer, format, at),
                ),
            ),
        },
    }
}

/// The text of a float taken apart, or why it is none. A whole reading
/// fails where a byte is left behind the float; a partial one ends there.
pub open spec fn spec_lex(buffer: Seq<u8>, format: u128, options: ParseOptions, partial: bool) -> Result<
    Lexed,
    Error,
> {
    match spec_sign(buffer, format, true) {
        Err(error) => Err(error),
        Ok((negative, start)) => {
            if start >= buffer.len() {
                Err(Error::Empty)
            } else {
                let found = match spec_special(buffer, format, options, start) {
                    Some(special) => Ok(special),
                    None => spec_number(buffer, format, options, start),
                };
                match found {
                    Err(error) => Err(error),
                    Ok((lexeme, end)) => if end < buffer.len() && !partial {
                        Err(Error::InvalidDigit(end as usize))
                    } else {
                        Ok(Lexed { negative, lexeme, consumed: end })
                    },
                }
            }
        },
    }
}

/// What kind of thing a float's text is.
#[derive(Clone, Copy, PartialEq, Eq, Structural, Debug)]
pub enum TextKind {
    Nan,
    Inf,
    Number,
}

/// A float's text taken apart.
pub struct FloatText {
    /// Whether a `-` stood before it.
    pub negative: bool,
    /// Whether it is NaN, infinity or a number.
    pub kind: TextKind,
    /// The number that the digits of the mantissa denote, without regard
    /// to the decimal point.
    pub mantissa: Bigint,
    /// How many digits stand behind the decimal point.
    pub fraction_digits: usize,
    /// Whether the exponent is below zero.
    pub exponent_negative: bool,
    /// The size of the exponent, counted up to `EXPONENT_CAP`.
    pub exponent_size: u128,
    /// The index behind the text.
    pub consumed: usize,
}

/// The size of an exponent, counted up to `EXPONENT_CAP`.
pub open spec fn spec_capped(exponent: int) -> int {
    let size = if exponent < 0 {
        -exponent
    } else {
        exponent
    };
    if size > EXPONENT_CAP {
        EXPONENT_CAP as int
    } else {
        size
    }
}

impl FloatText {
    /// Whether this is `lexed`, with the exponent counted up to the cap.
    pub open spec fn spec_is(&self, lexed: Lexed) -> bool {
        &&& self.negative == lexed.negative
        &&& self.consumed == lexed.consumed
        &&& match lexed.lexeme {
            Lexeme::Nan => self.kind == TextKind::Nan,
            Lexeme::Inf => self.kind == TextKind::Inf,
            Lexeme::Number { mantissa, fraction_digits, exponent } => {
                &&& self.kind == TextKind::Number
                &&& self.mantissa.spec_wf()
                &&& self.mantissa.spec_value() == mantissa
                &&& self.fraction_digits == fraction_digits
                &&& self.exponent_size == spec_capped(exponent)
                &&& exponent < 0 ==> self.exponent_negative
                &&& exponent > 0 ==> !self.exponent_negative
            },
        }
    }
}

/// Tells whether two bytes are the same, letters compared with their case
/// only where `cased` is set.
pub fn same_byte(a: u8, b: u8, cased: bool) -> (same: bool)
    ensures
        same == spec_same_byte(a, b, cased),
{
    if cased {
        a == b
    } else {
        to_ascii_lowercase(a) == to_ascii_lowercase(b)
    }
}

/// The byte under the cursor, if there is one.
fn current<'a, 'b, const FORMAT: u128>(iter: &DigitsIterator<'a, 'b, FORMAT>) -> (c: Option<u8>)
    requires
        iter.spec_wf(),
    ensures
        c == (if iter.spec_cursor() < iter.spec_buffer().len() {
            Some(iter.spec_buffer()[iter.spec_cursor()])
        } else {
            None::<u8>
        }),
{
    match iter.first() {
        Some(c) => Some(*c),
        None => None,
    }
}

/// Moves the cursor behind the byte under it and on to the next byte that
/// its section yields.
fn advance<'a, 'b, const FORMAT: u128>(iter: &mut DigitsIterator<'a, 'b, FORMAT>)
    requires
        old(iter).spec_digits_wf(),
        old(iter).spec_cursor() < old(iter).spec_buffer().len(),
    ensures
        final(iter).spec_digits_wf(),
        final(iter).section == old(iter).section,
        *final(final(iter).byte) == *final(old(iter).byte),
        final(iter).spec_buffer() == old(iter).spec_buffer(),
        final(iter).spec_cursor() == spec_peek_cursor(
            old(iter).spec_buffer(),
            old(iter).spec_syntax(),
            old(iter).spec_cursor() + 1,
        ),
{
    let at = iter.cursor();
    let len = iter.length();
    proof {
        lemma_peek_cursor(iter.spec_buffer(), iter.spec_syntax(), at + 1);
    }
    iter.set_cursor(at + 1);
    let _ = iter.peek();
}

/// Reads the digits of the cursor's section from the cursor on into
/// `value`, and counts them.
fn read_digits<'a, 'b, const FORMAT: u128>(
    iter: &mut DigitsIterator<'a, 'b, FORMAT>,
    value: Bigint,
) -> (r: (Bigint, usize))
    requires
        spec_is_valid(FORMAT),
        old(iter).spec_digits_wf(),
        value.spec_wf(),
    ensures
        final(iter).spec_digits_wf(),
        final(iter).section == old(iter).section,
        *final(final(iter).byte) == *final(old(iter).byte),
        final(iter).spec_buffer() == old(iter).spec_buffer(),
        r.0.spec_wf(),
        r.0.spec_value() == spec_run(
            old(iter).spec_buffer(),
            old(iter).spec_syntax(),
            old(iter).spec_cursor(),
            value.spec_value(),
            0,
        ).value,
        r.1 == spec_run(
            old(iter).spec_buffer(),
            old(iter).spec_syntax(),
            old(iter).spec_cursor(),
            value.spec_value(),
            0,
        ).count,
        final(iter).spec_cursor() == spec_run(
            old(iter).spec_buffer(),
            old(iter).spec_syntax(),
            old(iter).spec_cursor(),
            value.spec_value(),
            0,
        ).at,
{
    let ghost buffer = iter.spec_buffer();
    let ghost syntax = iter.spec_syntax();
    let ghost whole = spec_run(buffer, syntax, iter.spec_cursor(), value.spec_value(), 0);
    let radix = crate::skip::section_syntax(FORMAT, iter.section).radix;
    let len = iter.length();
    let mut value = value;
    let mut count: usize = 0;
    let mut done = false;
    while !done
        invariant
            iter.spec_digits_wf(),
            iter.section == old(iter).section,
            *final(iter.byte) == *final(old(iter).byte),
            iter.spec_buffer() == buffer,
            iter.spec_syntax() == syntax,
            radix == syntax.radix,
            len == buffer.len(),
            value.spec_wf(),
            count <= iter.spec_cursor(),
            !done ==> whole == spec_run(
                buffer,
                syntax,
                iter.spec_cursor(),
                value.spec_value(),
                count as nat,
            ),
            done ==> whole == (Run {
                value: value.spec_value(),
                count: count as nat,
                at: iter.spec_cursor(),
            }),
        decreases buffer.len() - iter.spec_cursor() + (if done {
            0int
        } else {
            1int
        }),
    {
        match current(iter) {
            None => {
                done = true;
            },
            Some(c) => match char_to_digit(c, radix) {
                None => {
                    done = true;
                },
                Some(digit) => {
                    proof {
                        lemma_peek_cursor(buffer, syntax, iter.spec_cursor() + 1);
                    }
                    value = value.mul_scalar(radix as u64).add(&Bigint::from_u64(digit as u64));
                    count = count + 1;
                    advance(iter);
                },
            },
        }
    }
    (value, count)
}

/// Reads the digits of an exponent from the cursor on, counts their value
/// up to `EXPONENT_CAP`, and counts them.
fn read_exponent_digits<'a, 'b, const FORMAT: u128>(iter: &mut DigitsIterator<'a, 'b, FORMAT>) -> (r:
    (u128, usize))
    requires
        spec_is_valid(FORMAT),
        old(iter).spec_digits_wf(),
    ensures
        final(iter).spec_digits_wf(),
        final(iter).section == old(iter).section,
        *final(final(iter).byte) == *final(old(iter).byte),
        final(iter).spec_buffer() == old(iter).spec_buffer(),
        r.0 == spec_capped(
            spec_run(
                old(iter).spec_buffer(),
                old(iter).spec_syntax(),
                old(iter).spec_cursor(),
                0,
                0,
            ).value as int,
        ),
        r.1 == spec_run(
            old(iter).spec_buffer(),
            old(iter).spec_syntax(),
            old(iter).spec_cursor(),
            0,
            0,
        ).count,
        final(iter).spec_cursor() == spec_run(
            old(iter).spec_buffer(),
            old(iter).spec_syntax(),
            old(iter).spec_cursor(),
            0,
            0,
        ).at,
{
    let ghost buffer = iter.spec_buffer();
    let ghost syntax = iter.spec_syntax();
    let ghost whole = spec_run(buffer, syntax, iter.spec_cursor(), 0, 0);
    let radix = crate::skip::section_syntax(FORMAT, iter.section).radix;
    let len = iter.length();
    assert(2 <= radix < 256);
    let mut value: u128 = 0;
    let ghost mut exact: nat = 0;
    let mut count: usize = 0;
    let mut done = false;
    while !done
        invariant
            iter.spec_digits_wf(),
            iter.section == old(iter).section,
            *final(iter.byte) == *final(old(iter).byte),
            iter.spec_buffer() == buffer,
            iter.spec_syntax() == syntax,
            radix == syntax.radix,
            2 <= radix < 256,
            len == buffer.len(),
            value == spec_capped(exact as int),
            count <= iter.spec_cursor(),
            !done ==> whole == spec_run(buffer, syntax, iter.spec_cursor(), exact, count as nat),
            done ==> whole == (Run { value: exact, count: count as nat, at: iter.spec_cursor() }),
        decreases buffer.len() - iter.spec_cursor() + (if done {
            0int
        } else {
            1int
        }),
    {
        match current(iter) {
            None => {
                done = true;
            },
            Some(c) => match char_to_digit(c, radix) {
                None => {
                    done = true;
                },
                Some(digit) => {
                    proof {
                        lemma_peek_cursor(buffer, syntax, iter.spec_cursor() + 1);
                        assert(exact >= EXPONENT_CAP ==> exact * radix + digit > EXPONENT_CAP)
                            by (nonlinear_arith)
                            requires
                                radix >= 2,
                                digit >= 0,
                        ;
                        assert(exact >= EXPONENT_CAP ==> value * radix + digit > EXPONENT_CAP)
                            by (nonlinear_arith)
                            requires
                                radix >= 2,
                                digit >= 0,
                                exact >= EXPONENT_CAP ==> value == EXPONENT_CAP,
                        ;
                        assert(exact < EXPONENT_CAP ==> value * radix + digit == exact * radix
                            + digit) by (nonlinear_arith)
                            requires
                                exact < EXPONENT_CAP ==> value == exact,
                        ;
                        assert(value * radix + digit <= EXPONENT_CAP * 256) by (nonlinear_arith)
                            requires
                                value <= EXPONENT_CAP,
                                radix < 256,
                                digit < radix,
                        ;
                    }
                    let next = value * (radix as u128) + digit as u128;
                    proof {
                        exact = exact * (radix as nat) + digit as nat;
                    }
                    value = if next > EXPONENT_CAP {
                        EXPONENT_CAP
                    } else {
                        next
                    };
                    count = count + 1;
                    advance(iter);
                },
            },
        }
    }
    (value, count)
}

/// Matches `literal` against what the cursor yields from where it stands.
/// Where all of it matches, the cursor is left behind the last byte
/// matched; else it is put back.
fn match_literal<'a, 'b, const FORMAT: u128>(
    iter: &mut DigitsIterator<'a, 'b, FORMAT>,
    literal: &[u8],
    cased: bool,
) -> (matched: bool)
    requires
        old(iter).spec_digits_wf(),
    ensures
        final(iter).spec_digits_wf(),
        final(iter).section == old(iter).section,
        *final(final(iter).byte) == *final(old(iter).byte),
        final(iter).spec_buffer() == old(iter).spec_buffer(),
        final(iter).spec_current_count() == old(iter).spec_current_count() || old(
            iter,
        ).spec_separator() == 0,
        matched == (spec_match(
            old(iter).spec_buffer(),
            old(iter).spec_syntax(),
            old(iter).spec_cursor(),
            literal@,
            0,
            cased,
        ) is Some),
        matched ==> final(iter).spec_cursor() == spec_match(
            old(iter).spec_buffer(),
            old(iter).spec_syntax(),
            old(iter).spec_cursor(),
            literal@,
            0,
            cased,
        )->0,
        !matched ==> final(iter).spec_cursor() == old(iter).spec_cursor(),
{
    let ghost buffer = iter.spec_buffer();
    let ghost syntax = iter.spec_syntax();
    let start = iter.cursor();
    let ghost whole = spec_match(buffer, syntax, start as int, literal@, 0, cased);
    let ghost counted = iter.spec_current_count();
    let len = iter.length();
    let count = literal.len();
    let mut index: usize = 0;
    while index < count
        invariant
            iter.spec_digits_wf(),
            iter.section == old(iter).section,
            *final(iter.byte) == *final(old(iter).byte),
            iter.spec_buffer() == buffer,
            iter.spec_syntax() == syntax,
            len == buffer.len(),
            count == literal@.len(),
            index <= count,
            start <= iter.spec_cursor(),
            start == old(iter).spec_cursor(),
            iter.spec_separator() != 0 ==> iter.spec_current_count() == counted,
            counted == old(iter).spec_current_count(),
            counted <= start,
            buffer == old(iter).spec_buffer(),
            syntax == old(iter).spec_syntax(),
            whole == spec_match(buffer, syntax, start as int, literal@, 0, cased),
            iter.spec_separator() == old(iter).spec_separator(),
            whole == spec_match(buffer, syntax, iter.spec_cursor(), literal@, index as int, cased),
        decreases count - index,
    {
        let ghost before = iter.spec_cursor();
        proof {
            lemma_peek_cursor(buffer, syntax, before);
        }
        let found = match iter.peek() {
            Some(c) => same_byte(*c, literal[index], cased),
            None => false,
        };
        if !found {
            assert(spec_match(buffer, syntax, before, literal@, index as int, cased) is None);
            iter.set_cursor(start);
            return false;
        }
        let at = iter.cursor();
        iter.set_cursor(at + 1);
        index = index + 1;
    }
    true
}

/// Reads the sign at the start of the input and leaves the cursor behind
/// it. Gives whether the sign is a `-`.
fn lex_sign<'a, 'b, const FORMAT: u128>(iter: &mut DigitsIterator<'a, 'b, FORMAT>) -> (r: Result<
    bool,
    Error,
>)
    requires
        spec_is_valid(FORMAT),
        old(iter).spec_digits_wf(),
        old(iter).section == Section::Integer,
        old(iter).spec_cursor() == 0,
    ensures
        final(iter).spec_digits_wf(),
        final(iter).section == Section::Integer,
        *final(final(iter).byte) == *final(old(iter).byte),
        final(iter).spec_buffer() == old(iter).spec_buffer(),
        match spec_sign(old(iter).spec_buffer(), FORMAT, true) {
            Ok((negative, start)) => r == Ok::<bool, Error>(negative) && final(iter).spec_cursor()
                == start,
            Err(error) => r == Err::<bool, Error>(error),
        },
{
    let ghost buffer = iter.spec_buffer();
    let ghost integer = spec_section_syntax(FORMAT, Section::Integer);
    proof {
        lemma_peek_cursor(buffer, integer, 0);
    }
    let _ = iter.peek();
    let first = current(iter);
    if first == Some(45u8) {
        advance(iter);
        Ok(true)
    } else if first == Some(43u8) {
        if has_flag(FORMAT, NO_POSITIVE_MANTISSA_SIGN) {
            return Err(Error::InvalidPositiveMantissaSign(iter.cursor()));
        }
        advance(iter);
        Ok(false)
    } else if has_flag(FORMAT, REQUIRED_MANTISSA_SIGN) {
        Err(Error::MissingMantissaSign(iter.cursor()))
    } else {
        Ok(false)
    }
}

/// Matches the literal of NaN or of infinity where the cursor stands.
/// After a match the cursor stands behind the literal; else it stays.
fn lex_special<'a, 'b, const FORMAT: u128>(
    iter: &mut DigitsIterator<'a, 'b, FORMAT>,
    options: &ParseOptions,
) -> (kind: Option<TextKind>)
    requires
        spec_is_valid(FORMAT),
        old(iter).spec_digits_wf(),
        old(iter).section == Section::Integer,
    ensures
        final(iter).spec_digits_wf(),
        final(iter).section == Section::Integer,
        *final(final(iter).byte) == *final(old(iter).byte),
        final(iter).spec_buffer() == old(iter).spec_buffer(),
        match spec_special(old(iter).spec_buffer(), FORMAT, *options, old(iter).spec_cursor()) {
            Some((lexeme, end)) => final(iter).spec_cursor() == end && match lexeme {
                Lexeme::Nan => kind == Some(TextKind::Nan),
                Lexeme::Inf => kind == Some(TextKind::Inf),
                Lexeme::Number { .. } => false,
            },
            None => kind is None && final(iter).spec_cursor() == old(iter).spec_cursor(),
        },
{
    if has_flag(FORMAT, NO_SPECIAL) {
        return None;
    }
    let ghost buffer = iter.spec_buffer();
    iter.section = Section::Special;
    let cased = has_flag(FORMAT, CASE_SENSITIVE_SPECIAL);
    let mut kind: Option<TextKind> = None;
    match options.nan_string {
        Some(literal) => {
            if literal.len() > 0 && match_literal(iter, literal, cased) {
                kind = Some(TextKind::Nan);
            }
        },
        None => {},
    }
    if kind.is_none() {
        match options.inf_string {
            Some(literal) => {
                if literal.len() > 0 && match_literal(iter, literal, cased) {
                    kind = Some(TextKind::Inf);
                }
            },
            None => {},
        }
    }
    if kind.is_some() {
        proof {
            lemma_peek_cursor(buffer, iter.spec_syntax(), iter.spec_cursor());
        }
        let _ = iter.peek();
    }
    iter.section = Section::Integer;
    kind
}

/// Reads the mantissa from where the cursor stands: an optional base
/// prefix, the integer digits, and the decimal point with the fraction
/// digits. Gives the number that the digits denote, how many stand before
/// and behind the point, whether there is a point, and the index of the
/// first digit.
fn lex_mantissa<'a, 'b, const FORMAT: u128>(
    iter: &mut DigitsIterator<'a, 'b, FORMAT>,
    options: &ParseOptions,
) -> (r: (Bigint, usize, usize, bool, usize))
    requires
        spec_is_valid(FORMAT),
        old(iter).spec_digits_wf(),
        old(iter).section == Section::Integer,
    ensures
        final(iter).spec_digits_wf(),
        *final(final(iter).byte) == *final(old(iter).byte),
        final(iter).spec_buffer() == old(iter).spec_buffer(),
        r.0.spec_wf(),
        ({
            let mantissa = spec_mantissa(
                old(iter).spec_buffer(),
                FORMAT,
                *options,
                old(iter).spec_cursor(),
            );
            &&& r.0.spec_value() == mantissa.value
            &&& r.1 == mantissa.whole_count
            &&& r.2 == mantissa.part_count
            &&& r.3 == mantissa.pointed
            &&& r.4 == mantissa.begin
            &&& final(iter).spec_cursor() == mantissa.at
            &&& mantissa.whole_count > 0 ==> 0 <= mantissa.begin < old(iter).spec_buffer().len()
        }),
{
    let ghost buffer = iter.spec_buffer();
    let ghost integer = spec_section_syntax(FORMAT, Section::Integer);
    let bytes = iter.get_buffer();
    let len = bytes.len();
    let start = iter.cursor();
    let prefix = base_prefix(FORMAT);
    if prefix != 0 && len - start > 1 && bytes[start] == 48 && same_byte(
        bytes[start + 1],
        prefix,
        has_flag(FORMAT, CASE_SENSITIVE_BASE_PREFIX),
    ) {
        proof {
            lemma_peek_cursor(buffer, integer, start + 2);
        }
        iter.set_cursor(start + 2);
        let _ = iter.peek();
    }
    let begin = iter.cursor();
    assert(begin == spec_after_prefix(buffer, FORMAT, start as int));
    let (whole, whole_count) = read_digits(iter, Bigint::zero());
    let point_at = iter.cursor();
    let pointed = point_at < len && bytes[point_at] == options.decimal_point;
    if pointed {
        iter.section = Section::Fraction;
        advance(iter);
        let (mantissa, part_count) = read_digits(iter, whole);
        (mantissa, whole_count, part_count, true, begin)
    } else {
        (whole, whole_count, 0, false, begin)
    }
}

/// Reads the exponent from where the cursor stands, behind a mantissa
/// with `fraction_digits` digits behind its point. Gives whether the
/// exponent is below zero and its size, counted up to `EXPONENT_CAP`.
fn lex_exponent<'a, 'b, const FORMAT: u128>(
    iter: &mut DigitsIterator<'a, 'b, FORMAT>,
    options: &ParseOptions,
    fraction_digits: usize,
) -> (r: Result<(bool, u128), Error>)
    requires
        spec_is_valid(FORMAT),
        old(iter).spec_digits_wf(),
    ensures
        final(iter).spec_digits_wf(),
        *final(final(iter).byte) == *final(old(iter).byte),
        final(iter).spec_buffer() == old(iter).spec_buffer(),
        match spec_exponent(
            old(iter).spec_buffer(),
            FORMAT,
            *options,
            old(iter).spec_cursor(),
            fraction_digits as nat,
        ) {
            Ok((exponent, at)) => {
                &&& r is Ok
                &&& r->Ok_0.1 == spec_capped(exponent)
                &&& exponent < 0 ==> r->Ok_0.0
                &&& exponent > 0 ==> !r->Ok_0.0
                &&& final(iter).spec_cursor() == at
            },
            Err(error) => r == Err::<(bool, u128), Error>(error),
        },
{
    let ghost buffer = iter.spec_buffer();
    let ghost exponent = spec_section_syntax(FORMAT, Section::Exponent);
    let bytes = iter.get_buffer();
    let len = bytes.len();
    let mark_at = iter.cursor();
    let marked = !has_flag(FORMAT, NO_EXPONENT_NOTATION) && mark_at < len && same_byte(
        bytes[mark_at],
        options.exponent,
        false,
    );
    if !marked {
        if has_flag(FORMAT, REQUIRED_EXPONENT_NOTATION) {
            return Err(Error::EmptyExponent);
        }
        return Ok((false, 0));
    }
    if has_flag(FORMAT, NO_EXPONENT_WITHOUT_FRACTION) && fraction_digits == 0 {
        return Err(Error::ExponentWithoutFraction(mark_at));
    }
    iter.section = Section::Exponent;
    proof {
        lemma_peek_cursor(buffer, exponent, mark_at + 1);
    }
    advance(iter);
    let sign_at = iter.cursor();
    let sign = current(iter);
    if sign == Some(43u8) && has_flag(FORMAT, NO_POSITIVE_EXPONENT_SIGN) {
        return Err(Error::InvalidPositiveExponentSign(sign_at));
    }
    if sign != Some(43u8) && sign != Some(45u8) && has_flag(FORMAT, REQUIRED_EXPONENT_SIGN) {
        return Err(Error::MissingExponentSign(sign_at));
    }
    if sign == Some(43u8) || sign == Some(45u8) {
        advance(iter);
    }
    let (size, count) = read_exponent_digits(iter);
    if count == 0 && has_flag(FORMAT, REQUIRED_EXPONENT_DIGITS) {
        return Err(Error::EmptyExponent);
    }
    Ok((sign == Some(45u8), size))
}

/// Takes the text of a float at the start of `bytes` apart. A whole
/// reading fails where a byte is left behind the float; a partial one ends
/// there.
pub fn lex_float<const FORMAT: u128>(bytes: &[u8], options: &ParseOptions, partial: bool) -> (r:
    Result<FloatText, Error>)
    requires
        spec_is_valid(FORMAT),
    ensures
        match spec_lex(bytes@, FORMAT, *options, partial) {
            Ok(lexed) => r is Ok && r->Ok_0.spec_is(lexed),
            Err(error) => r == Err::<FloatText, Error>(error),
        },
{
    let ghost buffer = bytes@;
    let len = bytes.len();
    let mut byte = Bytes::<FORMAT>::new(bytes);
    let mut iter = byte.integer_iter();
    let negative = match lex_sign(&mut iter) {
        Ok(negative) => negative,
        Err(error) => {
            return Err(error);
        },
    };
    let start = iter.cursor();
    if start >= len {
        return Err(Error::Empty);
    }
    match lex_special(&mut iter, options) {
        Some(kind) => {
            let end = iter.cursor();
            if end < len && !partial {
                return Err(Error::InvalidDigit(end));
            }
            return Ok(
                FloatText {
                    negative,
                    kind,
                    mantissa: Bigint::zero(),
                    fraction_digits: 0,
                    exponent_negative: false,
                    exponent_size: 0,
                    consumed: end,
                },
            );
        },
        None => {},
    }
    let (mantissa, whole_count, part_count, pointed, begin) = lex_mantissa(&mut iter, options);
    if has_flag(FORMAT, NO_FLOAT_LEADING_ZEROS) && whole_count > 1 && bytes[begin] == 48 {
        return Err(Error::InvalidLeadingZeros(begin));
    }
    if whole_count == 0 && part_count == 0 {
        return Err(Error::EmptyMantissa);
    }
    if whole_count == 0 && (has_flag(FORMAT, REQUIRED_INTEGER_DIGITS) || has_flag(
        FORMAT,
        NO_FRACTION_WITHOUT_INTEGER,
    )) {
        return Err(Error::EmptyInteger);
    }
    if pointed && part_count == 0 && has_flag(FORMAT, REQUIRED_FRACTION_DIGITS) {
        return Err(Error::EmptyFraction);
    }
    let (exponent_negative, exponent_size) = match lex_exponent(&mut iter, options, part_count) {
        Ok(exponent) => exponent,
        Err(error) => {
            return Err(error);
        },
    };
    let at = iter.cursor();
    let suffix = base_suffix(FORMAT);
    let end = if suffix != 0 && at < len && same_byte(
        bytes[at],
        suffix,
        has_flag(FORMAT, CASE_SENSITIVE_BASE_SUFFIX),
    ) {
        at + 1
    } else {
        at
    };
    if end < len && !partial {
        return Err(Error::InvalidDigit(end));
    }
    Ok(
        FloatText {
            negative,
            kind: TextKind::Number,
            mantissa,
            fraction_digits: part_count,
            exponent_negative,
            exponent_size,
            consumed: end,
        },
    )
}

/// A text that was taken apart ends inside the input or at its end.
pub proof fn lemma_lexed_in_bounds(
    buffer: Seq<u8>,
    format: u128,
    options: ParseOptions,
    partial: bool,
)
    requires
        spec_is_valid(format),
    ensures
        spec_lex(buffer, format, options, partial) matches Ok(lexed) ==> 0 <= lexed.consumed
            <= buffer.len(),
{
    let integer = spec_section_syntax(format, Section::Integer);
    let fraction = spec_section_syntax(format, Section::Fraction);
    let exponent = spec_section_syntax(format, Section::Exponent);
    let special = spec_section_syntax(format, Section::Special);
    lemma_peek_cursor(buffer, integer, 0);
    let first = spec_peek_cursor(buffer, integer, 0);
    if first < buffer.len() {
        lemma_peek_cursor(buffer, integer, first + 1);
    }
    match spec_sign(buffer, format, true) {
        Err(error) => {},
        Ok((negative, start)) => {
            if start < buffer.len() {
                match options.nan_string {
                    Some(literal) => {
                        lemma_match_in_bounds(
                            buffer,
                            special,
                            start,
                            literal@,
                            0,
                            spec_has_flag(format, CASE_SENSITIVE_SPECIAL),
                        );
                    },
                    None => {},
                }
                match options.inf_string {
                    Some(literal) => {
                        lemma_match_in_bounds(
                            buffer,
                            special,
                            start,
                            literal@,
                            0,
                            spec_has_flag(format, CASE_SENSITIVE_SPECIAL),
                        );
                    },
                    None => {},
                }
                match spec_special(buffer, format, options, start) {
                    Some((lexeme, end)) => {},
                    None => {
                        if start + 2 <= buffer.len() {
                            lemma_peek_cursor(buffer, integer, start + 2);
                        }
                        let begin = spec_after_prefix(buffer, format, start);
                        lemma_run_in_bounds(buffer, integer, begin, 0, 0);
                        let whole = spec_run(buffer, integer, begin, 0, 0);
                        if whole.at < buffer.len() {
                            lemma_peek_cursor(buffer, fraction, whole.at + 1);
                            lemma_run_in_bounds(
                                buffer,
                                fraction,
                                spec_peek_cursor(buffer, fraction, whole.at + 1),
                                whole.value,
                                0,
                            );
                        }
                        let mantissa = spec_mantissa(buffer, format, options, start);
                        let at = mantissa.at;
                        if at < buffer.len() {
                            lemma_peek_cursor(buffer, exponent, at + 1);
                            let sign_at = spec_peek_cursor(buffer, exponent, at + 1);
                            lemma_run_in_bounds(buffer, exponent, sign_at, 0, 0);
                            if sign_at < buffer.len() {
                                lemma_peek_cursor(buffer, exponent, sign_at + 1);
                                lemma_run_in_bounds(
                                    buffer,
                                    exponent,
                                    spec_peek_cursor(buffer, exponent, sign_at + 1),
                                    0,
                                    0,
                                );
                            }
                        }
                    },
                }
            }
        },
    }
}

/// A run of digits ends inside the buffer or at its end.
pub proof fn lemma_run_in_bounds(
    buffer: Seq<u8>,
    syntax: DigitSyntax,
    at: int,
    value: nat,
    count: nat,
)
    requires
        0 <= at <= buffer.len(),
    ensures
        at <= spec_run(buffer, syntax, at, value, count).at <= buffer.len(),
    decreases buffer.len() - at,
{
    if at < buffer.len() {
        match spec_char_to_digit(buffer[at], syntax.radix as int) {
            None => {},
            Some(digit) => {
                lemma_peek_cursor(buffer, syntax, at + 1);
                lemma_run_in_bounds(
                    buffer,
                    syntax,
                    spec_peek_cursor(buffer, syntax, at + 1),
                    (value * syntax.radix + digit) as nat,
                    count + 1,
                );
            },
        }
    }
}

/// A match ends inside the buffer or at its end.
pub proof fn lemma_match_in_bounds(
    buffer: Seq<u8>,
    syntax: DigitSyntax,
    at: int,
    literal: Seq<u8>,
    index: int,
    cased: bool,
)
    requires
        0 <= at <= buffer.len(),
        0 <= index,
    ensures
        spec_match(buffer, syntax, at, literal, index, cased) matches Some(end) ==> at <= end
            <= buffer.len() && spec_peek_cursor(buffer, syntax, end) <= buffer.len() && at
            <= spec_peek_cursor(buffer, syntax, end),
    decreases literal.len() - index,
{
    lemma_peek_cursor(buffer, syntax, at);
    if index < literal.len() {
        let here = spec_peek_cursor(buffer, syntax, at);
        if here < buffer.len() {
            lemma_match_in_bounds(buffer, syntax, here + 1, literal, index + 1, cased);
        }
    }
}

} // verus!
