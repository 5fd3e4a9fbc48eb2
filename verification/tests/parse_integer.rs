use lexical::error::Error;
use lexical::format::{
    is_valid, DIGIT_SEPARATOR_UNIT, EXPONENT_BASE_UNIT, EXPONENT_RADIX_UNIT,
    INTEGER_CONSECUTIVE_DIGIT_SEPARATOR, INTEGER_INTERNAL_DIGIT_SEPARATOR,
    INTEGER_LEADING_DIGIT_SEPARATOR, INTEGER_TRAILING_DIGIT_SEPARATOR, MANTISSA_RADIX_UNIT,
    NO_INTEGER_LEADING_ZEROS, NO_POSITIVE_MANTISSA_SIGN, REQUIRED_MANTISSA_SIGN, STANDARD,
};
use lexical::integer::write_integer;
use lexical::parse::{from_lexical, from_lexical_partial, parse_integer, Limits, Parsed};

const UNDERSCORE: u128 = STANDARD + (b'_' as u128) * DIGIT_SEPARATOR_UNIT;
const INTERNAL: u128 = UNDERSCORE | INTEGER_INTERNAL_DIGIT_SEPARATOR;
const LEADING: u128 = UNDERSCORE | INTEGER_LEADING_DIGIT_SEPARATOR;
const TRAILING: u128 = UNDERSCORE | INTEGER_TRAILING_DIGIT_SEPARATOR;
const INTERNAL_RUNS: u128 = INTERNAL | INTEGER_CONSECUTIVE_DIGIT_SEPARATOR;
const ANYWHERE: u128 = UNDERSCORE
    | INTEGER_INTERNAL_DIGIT_SEPARATOR
    | INTEGER_LEADING_DIGIT_SEPARATOR
    | INTEGER_TRAILING_DIGIT_SEPARATOR
    | INTEGER_CONSECUTIVE_DIGIT_SEPARATOR;
const SIGNED: u128 = STANDARD | REQUIRED_MANTISSA_SIGN;
const NO_PLUS: u128 = STANDARD | NO_POSITIVE_MANTISSA_SIGN;
const NO_ZEROS: u128 = STANDARD | NO_INTEGER_LEADING_ZEROS;
const NO_ZEROS_INTERNAL: u128 = INTERNAL | NO_INTEGER_LEADING_ZEROS;
const BINARY: u128 = 2 * MANTISSA_RADIX_UNIT + 2 * EXPONENT_BASE_UNIT + 2 * EXPONENT_RADIX_UNIT;
const OCTAL: u128 = 8 * MANTISSA_RADIX_UNIT + 8 * EXPONENT_BASE_UNIT + 8 * EXPONENT_RADIX_UNIT;
const HEXADECIMAL: u128 =
    16 * MANTISSA_RADIX_UNIT + 16 * EXPONENT_BASE_UNIT + 10 * EXPONENT_RADIX_UNIT;
const BASE36: u128 = 36 * MANTISSA_RADIX_UNIT + 36 * EXPONENT_BASE_UNIT + 36 * EXPONENT_RADIX_UNIT;
const BASE3: u128 = 3 * MANTISSA_RADIX_UNIT + 3 * EXPONENT_BASE_UNIT + 3 * EXPONENT_RADIX_UNIT;

#[test]
fn formats_of_these_tests_are_valid() {
    for format in [
        STANDARD, UNDERSCORE, INTERNAL, LEADING, TRAILING, INTERNAL_RUNS, ANYWHERE, SIGNED,
        NO_PLUS, NO_ZEROS, NO_ZEROS_INTERNAL, BINARY, OCTAL, HEXADECIMAL, BASE36, BASE3,
    ] {
        assert!(is_valid(format));
    }
}

#[test]
fn underscore_between_digits() {
    assert_eq!(from_lexical::<i64, INTERNAL>(b"1_000_000"), Ok(1_000_000_i64));
    assert_eq!(from_lexical::<i64, INTERNAL>(b"_1000"), Err(Error::InvalidDigit(0)));
}

#[test]
fn underscore_where_it_may_not_stand() {
    assert_eq!(from_lexical::<i64, INTERNAL>(b"1000_"), Err(Error::InvalidDigit(4)));
    assert_eq!(from_lexical::<i64, INTERNAL>(b"1__000"), Err(Error::InvalidDigit(2)));
    assert_eq!(from_lexical::<i64, INTERNAL>(b"-_1"), Err(Error::InvalidDigit(1)));
    assert_eq!(from_lexical::<i64, LEADING>(b"1_000"), Err(Error::InvalidDigit(1)));
    assert_eq!(from_lexical::<i64, TRAILING>(b"_1000"), Err(Error::InvalidDigit(0)));
    assert_eq!(from_lexical::<i64, UNDERSCORE>(b"1_000"), Err(Error::InvalidDigit(1)));
    assert_eq!(from_lexical::<i64, STANDARD>(b"1_000"), Err(Error::InvalidDigit(1)));
}

#[test]
fn underscore_before_and_after_digits() {
    assert_eq!(from_lexical::<i64, LEADING>(b"_1000"), Ok(1000));
    assert_eq!(from_lexical::<i64, LEADING>(b"-_1000"), Ok(-1000));
    assert_eq!(from_lexical::<i64, LEADING>(b"_-1000"), Ok(-1000));
    assert_eq!(from_lexical::<i64, LEADING>(b"__1000"), Err(Error::InvalidDigit(1)));
    assert_eq!(from_lexical::<i64, TRAILING>(b"1000_"), Ok(1000));
    assert_eq!(from_lexical::<i64, TRAILING>(b"1000__"), Err(Error::InvalidDigit(5)));
    assert_eq!(from_lexical::<i64, LEADING>(b"_"), Err(Error::Empty));
}

#[test]
fn underscores_in_runs() {
    assert_eq!(from_lexical::<i64, INTERNAL_RUNS>(b"1__000___000"), Ok(1_000_000));
    assert_eq!(from_lexical::<i64, INTERNAL_RUNS>(b"__1"), Err(Error::InvalidDigit(0)));
    assert_eq!(from_lexical::<i64, ANYWHERE>(b"__1__000__"), Ok(1000));
    assert_eq!(from_lexical::<i64, ANYWHERE>(b"___"), Err(Error::Empty));
    assert_eq!(from_lexical::<u8, ANYWHERE>(b"_2_5_6_"), Err(Error::Overflow(5)));
}

#[test]
fn separators_change_nothing_where_allowed() {
    let with: [&[u8]; 5] = [b"1_2_3", b"_123", b"123_", b"-1__23", b"+_1_2_3_"];
    let without: [&[u8]; 5] = [b"123", b"123", b"123", b"-123", b"+123"];
    for (a, b) in with.iter().zip(without.iter()) {
        assert_eq!(from_lexical::<i32, ANYWHERE>(a), from_lexical::<i32, STANDARD>(b));
    }
}

#[test]
fn plain_decimal() {
    assert_eq!(from_lexical::<u32, STANDARD>(b"0"), Ok(0));
    assert_eq!(from_lexical::<u32, STANDARD>(b"12345"), Ok(12345));
    assert_eq!(from_lexical::<u32, STANDARD>(b"+12345"), Ok(12345));
    assert_eq!(from_lexical::<i32, STANDARD>(b"-12345"), Ok(-12345));
    assert_eq!(from_lexical::<i32, STANDARD>(b"-0"), Ok(0));
    assert_eq!(from_lexical::<u32, STANDARD>(b"007"), Ok(7));
    assert_eq!(
        from_lexical::<u64, STANDARD>(b"18446744073709551615"),
        Ok(u64::MAX)
    );
    assert_eq!(
        from_lexical::<u128, STANDARD>(b"340282366920938463463374607431768211455"),
        Ok(u128::MAX)
    );
    assert_eq!(
        from_lexical::<i128, STANDARD>(b"-170141183460469231731687303715884105728"),
        Ok(i128::MIN)
    );
}

#[test]
fn empty_input() {
    assert_eq!(from_lexical::<u32, STANDARD>(b""), Err(Error::Empty));
    assert_eq!(from_lexical::<u32, STANDARD>(b"+"), Err(Error::Empty));
    assert_eq!(from_lexical::<i32, STANDARD>(b"-"), Err(Error::Empty));
    assert_eq!(from_lexical_partial::<i32, STANDARD>(b""), Err(Error::Empty));
}

#[test]
fn bytes_that_are_no_digits() {
    assert_eq!(from_lexical::<u32, STANDARD>(b"12a"), Err(Error::InvalidDigit(2)));
    assert_eq!(from_lexical::<u32, STANDARD>(b"a12"), Err(Error::InvalidDigit(0)));
    assert_eq!(from_lexical::<u32, STANDARD>(b"-1"), Err(Error::InvalidDigit(0)));
    assert_eq!(from_lexical::<i32, STANDARD>(b"--1"), Err(Error::InvalidDigit(1)));
    assert_eq!(from_lexical::<i32, STANDARD>(b"+-1"), Err(Error::InvalidDigit(1)));
    assert_eq!(from_lexical::<i32, STANDARD>(b"1.5"), Err(Error::InvalidDigit(1)));
    assert_eq!(from_lexical::<i32, STANDARD>(b" 1"), Err(Error::InvalidDigit(0)));
    assert_eq!(from_lexical::<u32, OCTAL>(b"78"), Err(Error::InvalidDigit(1)));
}

#[test]
fn partial_reading_stops_at_garbage() {
    assert_eq!(from_lexical_partial::<u32, STANDARD>(b"12a"), Ok((12, 2)));
    assert_eq!(from_lexical_partial::<i32, STANDARD>(b"-12.5e3"), Ok((-12, 3)));
    assert_eq!(from_lexical_partial::<u32, STANDARD>(b"123"), Ok((123, 3)));
    assert_eq!(from_lexical_partial::<u32, STANDARD>(b"a12"), Err(Error::InvalidDigit(0)));
    assert_eq!(from_lexical_partial::<u32, INTERNAL>(b"1_2_x"), Ok((12, 3)));
    assert_eq!(from_lexical_partial::<u32, TRAILING>(b"12_x"), Ok((12, 3)));
    assert_eq!(from_lexical_partial::<u8, STANDARD>(b"300 "), Err(Error::Overflow(2)));
}

#[test]
fn values_beyond_the_type() {
    assert_eq!(from_lexical::<u8, STANDARD>(b"255"), Ok(255));
    assert_eq!(from_lexical::<u8, STANDARD>(b"256"), Err(Error::Overflow(2)));
    assert_eq!(from_lexical::<u8, STANDARD>(b"1000"), Err(Error::Overflow(3)));
    assert_eq!(from_lexical::<i8, STANDARD>(b"127"), Ok(127));
    assert_eq!(from_lexical::<i8, STANDARD>(b"128"), Err(Error::Overflow(2)));
    assert_eq!(from_lexical::<i8, STANDARD>(b"-128"), Ok(-128));
    assert_eq!(from_lexical::<i8, STANDARD>(b"-129"), Err(Error::Underflow(3)));
    assert_eq!(from_lexical::<i16, STANDARD>(b"-32768"), Ok(i16::MIN));
    assert_eq!(from_lexical::<u16, STANDARD>(b"65536"), Err(Error::Overflow(4)));
    assert_eq!(from_lexical::<i64, STANDARD>(b"-9223372036854775808"), Ok(i64::MIN));
    assert_eq!(
        from_lexical::<i64, STANDARD>(b"9223372036854775808"),
        Err(Error::Overflow(18))
    );
    assert_eq!(
        from_lexical::<u128, STANDARD>(b"340282366920938463463374607431768211456"),
        Err(Error::Overflow(38))
    );
    assert_eq!(
        from_lexical::<u128, STANDARD>(b"3402823669209384634633746074317682114550"),
        Err(Error::Overflow(39))
    );
}

#[test]
fn signs_that_the_format_rules() {
    assert_eq!(from_lexical::<i32, SIGNED>(b"+5"), Ok(5));
    assert_eq!(from_lexical::<i32, SIGNED>(b"-5"), Ok(-5));
    assert_eq!(from_lexical::<i32, SIGNED>(b"5"), Err(Error::MissingMantissaSign(0)));
    assert_eq!(from_lexical::<i32, SIGNED>(b""), Err(Error::MissingMantissaSign(0)));
    assert_eq!(from_lexical::<u32, SIGNED>(b"-5"), Err(Error::MissingMantissaSign(0)));
    assert_eq!(from_lexical::<i32, NO_PLUS>(b"5"), Ok(5));
    assert_eq!(from_lexical::<i32, NO_PLUS>(b"-5"), Ok(-5));
    assert_eq!(
        from_lexical::<i32, NO_PLUS>(b"+5"),
        Err(Error::InvalidPositiveMantissaSign(0))
    );
}

#[test]
fn leading_zeros_that_the_format_forbids() {
    assert_eq!(from_lexical::<i32, NO_ZEROS>(b"0"), Ok(0));
    assert_eq!(from_lexical::<i32, NO_ZEROS>(b"10"), Ok(10));
    assert_eq!(from_lexical::<i32, NO_ZEROS>(b"01"), Err(Error::InvalidLeadingZeros(0)));
    assert_eq!(from_lexical::<i32, NO_ZEROS>(b"-00"), Err(Error::InvalidLeadingZeros(1)));
    assert_eq!(from_lexical::<i32, NO_ZEROS>(b"0x"), Err(Error::InvalidDigit(1)));
    assert_eq!(from_lexical_partial::<i32, NO_ZEROS>(b"0x"), Ok((0, 1)));
    assert_eq!(
        from_lexical::<i32, NO_ZEROS_INTERNAL>(b"0_1"),
        Err(Error::InvalidLeadingZeros(0))
    );
}

#[test]
fn other_radices() {
    assert_eq!(from_lexical::<u8, BINARY>(b"11111111"), Ok(255));
    assert_eq!(from_lexical::<u8, BINARY>(b"100000000"), Err(Error::Overflow(8)));
    assert_eq!(from_lexical::<u32, OCTAL>(b"777"), Ok(511));
    assert_eq!(from_lexical::<u32, HEXADECIMAL>(b"ff"), Ok(255));
    assert_eq!(from_lexical::<u32, HEXADECIMAL>(b"FF"), Ok(255));
    assert_eq!(from_lexical::<i32, HEXADECIMAL>(b"-7fFfFfFf"), Ok(-0x7fff_ffff));
    assert_eq!(from_lexical::<u32, BASE36>(b"zz"), Ok(1295));
    assert_eq!(from_lexical::<u32, BASE36>(b"ZZ"), Ok(1295));
    assert_eq!(from_lexical::<u32, BASE3>(b"210"), Ok(21));
    assert_eq!(from_lexical::<u32, BASE3>(b"3"), Err(Error::InvalidDigit(0)));
}

#[test]
fn parsed_parts() {
    let limits = Limits { max: 999, min: 99 };
    assert_eq!(
        parse_integer::<STANDARD>(b"-99", limits, false),
        Ok(Parsed { negative: true, magnitude: 99, consumed: 3 })
    );
    assert_eq!(parse_integer::<STANDARD>(b"-100", limits, false), Err(Error::Underflow(3)));
    assert_eq!(
        parse_integer::<STANDARD>(b"999x", limits, true),
        Ok(Parsed { negative: false, magnitude: 999, consumed: 3 })
    );
    assert_eq!(parse_integer::<STANDARD>(b"1000", limits, true), Err(Error::Overflow(3)));
    assert_eq!(Error::Overflow(3).index(), Some(3));
    assert_eq!(Error::Empty.index(), None);
}

fn round_trip<const FORMAT: u128>() {
    let mut buffer = [0u8; 200];
    for value in [0u128, 1, 9, 10, 35, 36, 255, 256, 65535, 1 << 32, u64::MAX as u128, u128::MAX] {
        let count = write_integer::<FORMAT>(false, value, &mut buffer);
        assert_eq!(from_lexical::<u128, FORMAT>(&buffer[..count]), Ok(value));
        if value <= u64::MAX as u128 {
            assert_eq!(from_lexical::<u64, FORMAT>(&buffer[..count]), Ok(value as u64));
        }
    }
    for value in [i64::MIN, -65536, -1, 0, 1, 127, i64::MAX] {
        let count = write_integer::<FORMAT>(value < 0, value.unsigned_abs() as u128, &mut buffer);
        assert_eq!(from_lexical::<i64, FORMAT>(&buffer[..count]), Ok(value));
        assert_eq!(from_lexical::<i128, FORMAT>(&buffer[..count]), Ok(value as i128));
    }
    for value in [i8::MIN, -1, 0, 1, i8::MAX] {
        let count = write_integer::<FORMAT>(value < 0, value.unsigned_abs() as u128, &mut buffer);
        assert_eq!(from_lexical::<i8, FORMAT>(&buffer[..count]), Ok(value));
        assert_eq!(from_lexical::<i16, FORMAT>(&buffer[..count]), Ok(value as i16));
        assert_eq!(from_lexical::<i32, FORMAT>(&buffer[..count]), Ok(value as i32));
    }
}

#[test]
fn written_integers_read_back() {
    round_trip::<STANDARD>();
    round_trip::<BINARY>();
    round_trip::<BASE3>();
    round_trip::<OCTAL>();
    round_trip::<HEXADECIMAL>();
    round_trip::<BASE36>();
    round_trip::<SIGNED>();
    round_trip::<NO_PLUS>();
    round_trip::<NO_ZEROS>();
    round_trip::<ANYWHERE>();
}
