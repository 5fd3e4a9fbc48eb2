//! Reading an integer: an optional sign, then digits taken one by one from
//! a cursor that skips the digit separators its format allows.

use crate::digit::{char_to_digit, spec_char_is_digit, spec_char_to_digit};
use crate::error::Error;
use crate::format::{
    has_flag, mantissa_radix, spec_has_flag, spec_is_valid, Section, NO_INTEGER_LEADING_ZEROS,
    NO_POSITIVE_MANTISSA_SIGN, REQUIRED_MANTISSA_SIGN,
};
use crate::iterator::{
    lemma_peek_cursor, spec_peek, spec_peek_cursor, DigitSyntax, DigitsIter, Iter,
};
use crate::skip::{spec_section_syntax, Bytes};
use vstd::prelude::*;

verus! {

/// The range of an integer type, as the sizes of its largest and of its
/// smallest value. An unsigned type has a smallest value of size 0.
#[derive(Clone, Copy, PartialEq, Eq, Structural, Debug)]
pub struct Limits {
    /// The largest value.
    pub max: u128,
    /// The size of the smallest value.
    pub min: u128,
}

/// An integer that was read: its sign, its size and how many bytes of the
/// input it took.
#[derive(Clone, Copy, PartialEq, Eq, Structural, Debug)]
pub struct Parsed {
    /// Whether a `-` stood before the digits.
    pub negative: bool,
    /// The number that the digits denote.
    pub magnitude: u128,
    /// The index behind the last byte that was taken.
    pub consumed: usize,
}

/// How reading digits ends.
pub enum Scan {
    /// At the end of the input, with the value read.
    End { value: nat, at: int },
    /// At a byte that is no digit, with the value read before it.
    Stop { value: nat, at: int },
    /// At a digit with which the value would pass the largest allowed.
    Over { at: int },
}

/// Reads digits from index `at` on, where `value` was read before. After
/// each digit the cursor skips the separators that may be skipped there;
/// any other byte that is no digit ends the reading.
pub open spec fn spec_scan(buffer: Seq<u8>, syntax: DigitSyntax, at: int, value: nat, max: nat) -> Scan
    decreases buffer.len() - at,
{
    if at < 0 || at >= buffer.len() {
        Scan::End { value, at }
    } else {
        match spec_char_to_digit(buffer[at], syntax.radix as int) {
            None => Scan::Stop { value, at },
            Some(digit) => {
                let next = value * syntax.radix + digit;
                if next > max {
                    Scan::Over { at }
                } else {
                    proof {
                        lemma_peek_cursor(buffer, syntax, at + 1);
                    }
                    spec_scan(
                        buffer,
                        syntax,
                        spec_peek_cursor(buffer, syntax, at + 1),
                        next as nat,
                        max,
                    )
                }
            },
        }
    }
}

/// The sign of a number and the index of the byte behind it, or why the
/// sign is refused. A `-` counts as a sign only where `signed` is set; a `+` is refused where the format forbids it, and a
/// number without a sign where the format requires one.
pub open spec fn spec_sign(buffer: Seq<u8>, format: u128, signed: bool) -> Result<
    (bool, int),
    Error,
> {
    let syntax = spec_section_syntax(format, Section::Integer);
    let first = spec_peek_cursor(buffer, syntax, 0);
    let byte = spec_peek(buffer, syntax, 0);
    if byte == Some(45u8) && signed {
        Ok((true, spec_peek_cursor(buffer, syntax, first + 1)))
    } else if byte == Some(43u8) {
        if spec_has_flag(format, NO_POSITIVE_MANTISSA_SIGN) {
            Err(Error::InvalidPositiveMantissaSign(first as usize))
        } else {
            Ok((false, spec_peek_cursor(buffer, syntax, first + 1)))
        }
    } else if spec_has_flag(format, REQUIRED_MANTISSA_SIGN) {
        Err(Error::MissingMantissaSign(first as usize))
    } else {
        Ok((false, first))
    }
}

/// The integer that `buffer` holds, or why it holds none.
///
/// Behind the sign at least one digit must stand, and a first digit `0`
/// must not be followed by another digit where the format forbids leading
/// zeros. The digits are read up to the end of the input or to a byte that
/// is no digit: such a byte ends a partial reading and fails a whole one.
/// A value beyond the limits fails with the index of the digit that passed
/// them.
pub open spec fn spec_parse_integer(
    buffer: Seq<u8>,
    format: u128,
    limits: Limits,
    partial: bool,
) -> Result<Parsed, Error> {
    let syntax = spec_section_syntax(format, Section::Integer);
    match spec_sign(buffer, format, limits.min > 0) {
        Err(error) => Err(error),
        Ok((negative, start)) => {
            let max = if negative {
                limits.min
            } else {
                limits.max
            };
            if start >= buffer.len() {
                Err(Error::Empty)
            } else if !spec_char_is_digit(buffer[start], syntax.radix as int) {
                Err(Error::InvalidDigit(start as usize))
            } else if spec_has_flag(format, NO_INTEGER_LEADING_ZEROS) && buffer[start] == 48 && (
            match spec_peek(buffer, syntax, start + 1) {
                Some(second) => spec_char_is_digit(second, syntax.radix as int),
                None => false,
            }) {
                Err(Error::InvalidLeadingZeros(start as usize))
            } else {
                match spec_scan(buffer, syntax, start, 0, max as nat) {
                    Scan::End { value, at } => Ok(
                        Parsed { negative, magnitude: value as u128, consumed: at as usize },
                    ),
                    Scan::Stop { value, at } => if partial {
                        Ok(Parsed { negative, magnitude: value as u128, consumed: at as usize })
                    } else {
                        Err(Error::InvalidDigit(at as usize))
                    },
                    Scan::Over { at } => if negative {
                        Err(Error::Underflow(at as usize))
                    } else {
                        Err(Error::Overflow(at as usize))
                    },
                }
            }
        },
    }
}

/// The byte behind a reference, if there is one.
fn copied(byte: Option<&u8>) -> (c: Option<u8>)
    ensures
        byte is Some == c is Some,
        byte is Some ==> *byte->0 == c->0,
{
    match byte {
        Some(c) => Some(*c),
        None => None,
    }
}

/// Reads an integer within `limits` from the start of `bytes`. A partial
/// reading ends at the first byte that is no digit; a whole one fails
/// there.
pub fn parse_integer<const FORMAT: u128>(bytes: &[u8], limits: Limits, partial: bool) -> (r:
    Result<Parsed, Error>)
    requires
        spec_is_valid(FORMAT),
    ensures
        r == spec_parse_integer(bytes@, FORMAT, limits, partial),
{
    let ghost buffer = bytes@;
    let ghost syntax = spec_section_syntax(FORMAT, Section::Integer);
    let len = bytes.len();
    let radix = mantissa_radix(FORMAT);
    let mut byte = Bytes::<FORMAT>::new(bytes);
    let mut iter = byte.integer_iter();
    proof {
        lemma_peek_cursor(buffer, syntax, 0);
    }
    let mut current = copied(iter.peek());
    let ghost first = iter.spec_cursor();
    let mut negative = false;
    if current == Some(45u8) && limits.min > 0 {
        negative = true;
        iter.step_unchecked();
        proof {
            lemma_peek_cursor(buffer, syntax, first + 1);
        }
        current = copied(iter.peek());
    } else if current == Some(43u8) {
        if has_flag(FORMAT, NO_POSITIVE_MANTISSA_SIGN) {
            return Err(Error::InvalidPositiveMantissaSign(iter.cursor()));
        }
        iter.step_unchecked();
        proof {
            lemma_peek_cursor(buffer, syntax, first + 1);
        }
        current = copied(iter.peek());
    } else if has_flag(FORMAT, REQUIRED_MANTISSA_SIGN) {
        return Err(Error::MissingMantissaSign(iter.cursor()));
    }
    let start = iter.cursor();
    assert(spec_sign(buffer, FORMAT, limits.min > 0) == Ok::<(bool, int), Error>(
        (negative, start as int),
    ));
    let max: u128 = if negative {
        limits.min
    } else {
        limits.max
    };
    let c = match current {
        None => {
            return Err(Error::Empty);
        },
        Some(c) => c,
    };
    if char_to_digit(c, radix).is_none() {
        return Err(Error::InvalidDigit(start));
    }
    let mut value: u128 = 0;
    if has_flag(FORMAT, NO_INTEGER_LEADING_ZEROS) && c == 48 {
        let _ = iter.next();
        proof {
            lemma_peek_cursor(buffer, syntax, start + 1);
        }
        current = copied(iter.peek());
        match current {
            Some(second) => {
                if char_to_digit(second, radix).is_some() {
                    return Err(Error::InvalidLeadingZeros(start));
                }
            },
            None => {},
        }
    }
    let ghost whole = spec_scan(buffer, syntax, start as int, 0, max as nat);
    let mut ended: u8 = 0;
    while ended == 0
        invariant
            spec_is_valid(FORMAT),
            iter.spec_digits_wf(),
            iter.spec_buffer() == buffer,
            iter.spec_syntax() == syntax,
            syntax == spec_section_syntax(FORMAT, Section::Integer),
            radix == syntax.radix,
            len == buffer.len(),
            current == (if iter.spec_cursor() < buffer.len() {
                Some(buffer[iter.spec_cursor()])
            } else {
                None::<u8>
            }),
            value <= max,
            ended == 0 ==> whole == spec_scan(
                buffer,
                syntax,
                iter.spec_cursor(),
                value as nat,
                max as nat,
            ),
            ended == 1 ==> whole == (Scan::End { value: value as nat, at: iter.spec_cursor() }),
            ended == 2 ==> whole == (Scan::Stop { value: value as nat, at: iter.spec_cursor() }),
            ended == 3 ==> whole == (Scan::Over { at: iter.spec_cursor() }),
            ended <= 3,
        decreases buffer.len() - iter.spec_cursor() + (if ended == 0 {
            1int
        } else {
            0int
        }),
    {
        match current {
            None => {
                ended = 1;
            },
            Some(c) => match char_to_digit(c, radix) {
                None => {
                    ended = 2;
                },
                Some(digit) => {
                    let next = match value.checked_mul(radix as u128) {
                        Some(scaled) => match scaled.checked_add(digit as u128) {
                            Some(next) => if next <= max {
                                Some(next)
                            } else {
                                None
                            },
                            None => None,
                        },
                        None => None,
                    };
                    match next {
                        None => {
                            ended = 3;
                        },
                        Some(next) => {
                            let ghost at = iter.spec_cursor();
                            proof {
                                lemma_peek_cursor(buffer, syntax, at + 1);
                            }
                            let _ = iter.next();
                            current = copied(iter.peek());
                            value = next;
                        },
                    }
                },
            },
        }
    }
    let at = iter.cursor();
    if ended == 1 {
        Ok(Parsed { negative, magnitude: value, consumed: at })
    } else if ended == 2 {
        if partial {
            Ok(Parsed { negative, magnitude: value, consumed: at })
        } else {
            Err(Error::InvalidDigit(at))
        }
    } else if negative {
        Err(Error::Underflow(at))
    } else {
        Err(Error::Overflow(at))
    }
}

/// What reading digits yields lies within the largest value allowed, and
/// reading ends inside the input or at its end.
pub proof fn lemma_scan_bounds(buffer: Seq<u8>, syntax: DigitSyntax, at: int, value: nat, max: nat)
    requires
        0 <= at <= buffer.len(),
        value <= max,
    ensures
        match spec_scan(buffer, syntax, at, value, max) {
            Scan::End { value: read, at: end } => read <= max && end == buffer.len(),
            Scan::Stop { value: read, at: end } => read <= max && at <= end < buffer.len(),
            Scan::Over { at: end } => at <= end < buffer.len(),
        },
    decreases buffer.len() - at,
{
    if at < buffer.len() {
        match spec_char_to_digit(buffer[at], syntax.radix as int) {
            None => {},
            Some(digit) => {
                let next = value * syntax.radix + digit;
                if next <= max {
                    lemma_peek_cursor(buffer, syntax, at + 1);
                    lemma_scan_bounds(
                        buffer,
                        syntax,
                        spec_peek_cursor(buffer, syntax, at + 1),
                        next as nat,
                        max,
                    );
                }
            },
        }
    }
}

/// An integer that was read lies within the limits it was read for, and it
/// took no more bytes than the input has. A `-` is read only for a type
/// with negative values.
pub proof fn lemma_parsed_in_limits(buffer: Seq<u8>, format: u128, limits: Limits, partial: bool)
    requires
        buffer.len() <= usize::MAX,
    ensures
        spec_parse_integer(buffer, format, limits, partial) matches Ok(parsed) ==> {
            &&& !parsed.negative ==> parsed.magnitude <= limits.max
            &&& parsed.negative ==> parsed.magnitude <= limits.min && limits.min > 0
            &&& parsed.consumed <= buffer.len()
            &&& !partial ==> parsed.consumed == buffer.len()
        },
{
    let syntax = spec_section_syntax(format, Section::Integer);
    lemma_peek_cursor(buffer, syntax, 0);
    let first = spec_peek_cursor(buffer, syntax, 0);
    if first < buffer.len() {
        lemma_peek_cursor(buffer, syntax, first + 1);
    }
    match spec_sign(buffer, format, limits.min > 0) {
        Err(error) => {},
        Ok((negative, start)) => {
            let max = if negative {
                limits.min
            } else {
                limits.max
            };
            if 0 <= start < buffer.len() {
                lemma_scan_bounds(buffer, syntax, start, 0, max as nat);
            }
        },
    }
}

/// An integer type that can be read from text.
pub trait FromLexical: Sized {
    /// The range of the type.
    spec fn spec_limits() -> Limits;

    /// The value with this sign and size.
    spec fn spec_from_parts(negative: bool, magnitude: u128) -> Self;

    /// The range of the type.
    fn limits() -> (limits: Limits)
        ensures
            limits == Self::spec_limits(),
    ;

    /// The value with this sign and size, which must lie in the range of
    /// the type.
    fn from_parts(negative: bool, magnitude: u128) -> (value: Self)
        requires
            !negative ==> magnitude <= Self::spec_limits().max,
            negative ==> magnitude <= Self::spec_limits().min,
        ensures
            value == Self::spec_from_parts(negative, magnitude),
    ;
}

/// Reads a value from the whole of `bytes`.
pub fn from_lexical<T: FromLexical, const FORMAT: u128>(bytes: &[u8]) -> (r: Result<T, Error>)
    requires
        spec_is_valid(FORMAT),
    ensures
        match spec_parse_integer(bytes@, FORMAT, T::spec_limits(), false) {
            Ok(parsed) => r == Ok::<T, Error>(T::spec_from_parts(parsed.negative, parsed.magnitude)),
            Err(error) => r == Err::<T, Error>(error),
        },
{
    let len = bytes.len();
    proof {
        lemma_parsed_in_limits(bytes@, FORMAT, T::spec_limits(), false);
    }
    match parse_integer::<FORMAT>(bytes, T::limits(), false) {
        Ok(parsed) => Ok(T::from_parts(parsed.negative, parsed.magnitude)),
        Err(error) => Err(error),
    }
}

/// Reads a value from the start of `bytes` and tells how many bytes it
/// took.
pub fn from_lexical_partial<T: FromLexical, const FORMAT: u128>(bytes: &[u8]) -> (r: Result<
    (T, usize),
    Error,
>)
    requires
        spec_is_valid(FORMAT),
    ensures
        match spec_parse_integer(bytes@, FORMAT, T::spec_limits(), true) {
            Ok(parsed) => r == Ok::<(T, usize), Error>(
                (T::spec_from_parts(parsed.negative, parsed.magnitude), parsed.consumed),
            ),
            Err(error) => r == Err::<(T, usize), Error>(error),
        },
{
    let len = bytes.len();
    proof {
        lemma_parsed_in_limits(bytes@, FORMAT, T::spec_limits(), true);
    }
    match parse_integer::<FORMAT>(bytes, T::limits(), true) {
        Ok(parsed) => Ok((T::from_parts(parsed.negative, parsed.magnitude), parsed.consumed)),
        Err(error) => Err(error),
    }
}

impl FromLexical for u8 {
    open spec fn spec_limits() -> Limits {
        Limits { max: 0xff, min: 0 }
    }

    open spec fn spec_from_parts(negative: bool, magnitude: u128) -> u8 {
        magnitude as u8
    }

    fn limits() -> (limits: Limits) {
        Limits { max: 0xff, min: 0 }
    }

    fn from_parts(negative: bool, magnitude: u128) -> (value: u8) {
        magnitude as u8
    }
}

impl FromLexical for u16 {
    open spec fn spec_limits() -> Limits {
        Limits { max: 0xffff, min: 0 }
    }

    open spec fn spec_from_parts(negative: bool, magnitude: u128) -> u16 {
        magnitude as u16
    }

    fn limits() -> (limits: Limits) {
        Limits { max: 0xffff, min: 0 }
    }

    fn from_parts(negative: bool, magnitude: u128) -> (value: u16) {
        magnitude as u16
    }
}

impl FromLexical for u32 {
    open spec fn spec_limits() -> Limits {
        Limits { max: 0xffff_ffff, min: 0 }
    }

    open spec fn spec_from_parts(negative: bool, magnitude: u128) -> u32 {
        magnitude as u32
    }

    fn limits() -> (limits: Limits) {
        Limits { max: 0xffff_ffff, min: 0 }
    }

    fn from_parts(negative: bool, magnitude: u128) -> (value: u32) {
        magnitude as u32
    }
}

impl FromLexical for u64 {
    open spec fn spec_limits() -> Limits {
        Limits { max: 0xffff_ffff_ffff_ffff, min: 0 }
    }

    open spec fn spec_from_parts(negative: bool, magnitude: u128) -> u64 {
        magnitude as u64
    }

    fn limits() -> (limits: Limits) {
        Limits { max: 0xffff_ffff_ffff_ffff, min: 0 }
    }

    fn from_parts(negative: bool, magnitude: u128) -> (value: u64) {
        magnitude as u64
    }
}

impl FromLexical for u128 {
    open spec fn spec_limits() -> Limits {
        Limits { max: 0xffff_ffff_ffff_ffff_ffff_ffff_ffff_ffff, min: 0 }
    }

    open spec fn spec_from_parts(negative: bool, magnitude: u128) -> u128 {
        magnitude as u128
    }

    fn limits() -> (limits: Limits) {
        Limits { max: 0xffff_ffff_ffff_ffff_ffff_ffff_ffff_ffff, min: 0 }
    }

    fn from_parts(negative: bool, magnitude: u128) -> (value: u128) {
        magnitude as u128
    }
}

impl FromLexical for i8 {
    open spec fn spec_limits() -> Limits {
        Limits { max: 0x7f, min: 0x80 }
    }

    open spec fn spec_from_parts(negative: bool, magnitude: u128) -> i8 {
        if negative {
            (-(magnitude as int)) as i8
        } else {
            magnitude as i8
        }
    }

    fn limits() -> (limits: Limits) {
        Limits { max: 0x7f, min: 0x80 }
    }

    fn from_parts(negative: bool, magnitude: u128) -> (value: i8) {
        if negative {
            if magnitude == 0x80 {
                i8::MIN
            } else {
                -(magnitude as i8)
            }
        } else {
            magnitude as i8
        }
    }
}

impl FromLexical for i16 {
    open spec fn spec_limits() -> Limits {
        Limits { max: 0x7fff, min: 0x8000 }
    }

    open spec fn spec_from_parts(negative: bool, magnitude: u128) -> i16 {
        if negative {
            (-(magnitude as int)) as i16
        } else {
            magnitude as i16
        }
    }

    fn limits() -> (limits: Limits) {
        Limits { max: 0x7fff, min: 0x8000 }
    }

    fn from_parts(negative: bool, magnitude: u128) -> (value: i16) {
        if negative {
            if magnitude == 0x8000 {
                i16::MIN
            } else {
                -(magnitude as i16)
            }
        } else {
            magnitude as i16
        }
    }
}

impl FromLexical for i32 {
    open spec fn spec_limits() -> Limits {
        Limits { max: 0x7fff_ffff, min: 0x8000_0000 }
    }

    open spec fn spec_from_parts(negative: bool, magnitude: u128) -> i32 {
        if negative {
            (-(magnitude as int)) as i32
        } else {
            magnitude as i32
        }
    }

    fn limits() -> (limits: Limits) {
        Limits { max: 0x7fff_ffff, min: 0x8000_0000 }
    }

    fn from_parts(negative: bool, magnitude: u128) -> (value: i32) {
        if negative {
            if magnitude == 0x8000_0000 {
                i32::MIN
            } else {
                -(magnitude as i32)
            }
        } else {
            magnitude as i32
        }
    }
}

impl FromLexical for i64 {
    open spec fn spec_limits() -> Limits {
        Limits { max: 0x7fff_ffff_ffff_ffff, min: 0x8000_0000_0000_0000 }
    }

    open spec fn spec_from_parts(negative: bool, magnitude: u128) -> i64 {
        if negative {
            (-(magnitude as int)) as i64
        } else {
            magnitude as i64
        }
    }

    fn limits() -> (limits: Limits) {
        Limits { max: 0x7fff_ffff_ffff_ffff, min: 0x8000_0000_0000_0000 }
    }

    fn from_parts(negative: bool, magnitude: u128) -> (value: i64) {
        if negative {
            if magnitude == 0x8000_0000_0000_0000 {
                i64::MIN
            } else {
                -(magnitude as i64)
            }
        } else {
            magnitude as i64
        }
    }
}

impl FromLexical for i128 {
    open spec fn spec_limits() -> Limits {
        Limits { max: 0x7fff_ffff_ffff_ffff_ffff_ffff_ffff_ffff, min: 0x8000_0000_0000_0000_0000_0000_0000_0000 }
    }

    open spec fn spec_from_parts(negative: bool, magnitude: u128) -> i128 {
        if negative {
            (-(magnitude as int)) as i128
        } else {
            magnitude as i128
        }
    }

    fn limits() -> (limits: Limits) {
        Limits { max: 0x7fff_ffff_ffff_ffff_ffff_ffff_ffff_ffff, min: 0x8000_0000_0000_0000_0000_0000_0000_0000 }
    }

    fn from_parts(negative: bool, magnitude: u128) -> (value: i128) {
        if negative {
            if magnitude == 0x8000_0000_0000_0000_0000_0000_0000_0000 {
                i128::MIN
            } else {
                -(magnitude as i128)
            }
        } else {
            magnitude as i128
        }
    }
}

} // verus!
