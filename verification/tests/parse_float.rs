use lexical::error::Error;
use lexical::float::{Float32, Float64};
use lexical::format::{
    is_valid, BASE_PREFIX_UNIT, BASE_SUFFIX_UNIT, CASE_SENSITIVE_SPECIAL, DIGIT_SEPARATOR_UNIT,
    EXPONENT_BASE_UNIT, EXPONENT_INTERNAL_DIGIT_SEPARATOR, EXPONENT_RADIX_UNIT,
    FRACTION_INTERNAL_DIGIT_SEPARATOR, INTEGER_INTERNAL_DIGIT_SEPARATOR, MANTISSA_RADIX_UNIT,
    NO_EXPONENT_NOTATION, NO_EXPONENT_WITHOUT_FRACTION, NO_FLOAT_LEADING_ZEROS,
    NO_FRACTION_WITHOUT_INTEGER, NO_POSITIVE_EXPONENT_SIGN, NO_POSITIVE_MANTISSA_SIGN, NO_SPECIAL,
    REQUIRED_EXPONENT_DIGITS, REQUIRED_EXPONENT_NOTATION, REQUIRED_EXPONENT_SIGN,
    REQUIRED_FRACTION_DIGITS, REQUIRED_INTEGER_DIGITS, REQUIRED_MANTISSA_SIGN,
    SPECIAL_CONSECUTIVE_DIGIT_SEPARATOR, SPECIAL_INTERNAL_DIGIT_SEPARATOR,
    SPECIAL_LEADING_DIGIT_SEPARATOR, SPECIAL_TRAILING_DIGIT_SEPARATOR, STANDARD,
};
use lexical::options::ParseOptions;
use lexical::parse_float::{from_lexical_float, from_lexical_float_partial};

const HEX: u128 = 16 * MANTISSA_RADIX_UNIT
    + 2 * EXPONENT_BASE_UNIT
    + 10 * EXPONENT_RADIX_UNIT
    + (b'x' as u128) * BASE_PREFIX_UNIT;
const HEX_SUFFIX: u128 = 16 * MANTISSA_RADIX_UNIT
    + 16 * EXPONENT_BASE_UNIT
    + 10 * EXPONENT_RADIX_UNIT
    + (b'h' as u128) * BASE_SUFFIX_UNIT;
const BINARY: u128 = 2 * MANTISSA_RADIX_UNIT + 2 * EXPONENT_BASE_UNIT + 10 * EXPONENT_RADIX_UNIT;
const BASE3: u128 = 3 * MANTISSA_RADIX_UNIT + 3 * EXPONENT_BASE_UNIT + 10 * EXPONENT_RADIX_UNIT;
const UNDERSCORE: u128 = STANDARD
    + (b'_' as u128) * DIGIT_SEPARATOR_UNIT
    + INTEGER_INTERNAL_DIGIT_SEPARATOR
    + FRACTION_INTERNAL_DIGIT_SEPARATOR
    + EXPONENT_INTERNAL_DIGIT_SEPARATOR
    + SPECIAL_INTERNAL_DIGIT_SEPARATOR;
const SPECIAL: u128 = STANDARD
    + (b'_' as u128) * DIGIT_SEPARATOR_UNIT
    + SPECIAL_INTERNAL_DIGIT_SEPARATOR
    + SPECIAL_LEADING_DIGIT_SEPARATOR
    + SPECIAL_TRAILING_DIGIT_SEPARATOR
    + SPECIAL_CONSECUTIVE_DIGIT_SEPARATOR;

fn read<const FORMAT: u128>(text: &[u8]) -> Result<f64, Error> {
    assert!(is_valid(FORMAT));
    let options = ParseOptions::from_radix(lexical::format::mantissa_radix(FORMAT));
    from_lexical_float::<Float64, FORMAT>(text, &options).map(|f| f64::from_bits(f.bits))
}

fn read32<const FORMAT: u128>(text: &[u8]) -> Result<f32, Error> {
    assert!(is_valid(FORMAT));
    let options = ParseOptions::from_radix(lexical::format::mantissa_radix(FORMAT));
    from_lexical_float::<Float32, FORMAT>(text, &options).map(|f| f32::from_bits(f.bits))
}

fn bits(text: &[u8]) -> u64 {
    let options = ParseOptions::default();
    from_lexical_float::<Float64, STANDARD>(text, &options).unwrap().bits
}

#[test]
fn pi_to_fifteen_digits() {
    assert_eq!(read::<STANDARD>(b"3.14159265358979"), Ok(3.14159265358979_f64));
    assert_eq!(bits(b"3.14159265358979"), 0x400921FB54442D11);
    assert_eq!(bits(b"3.141592653589793"), 0x400921FB54442D18);
}

#[test]
fn numbers_beyond_all_floats() {
    assert!(matches!(read::<STANDARD>(b"1e400"), Err(Error::Overflow(_))));
    assert_eq!(read::<STANDARD>(b"1e400"), Err(Error::Overflow(5)));
    assert_eq!(read::<STANDARD>(b"-1e400"), Err(Error::Overflow(6)));
    assert_eq!(read::<STANDARD>(b"1e99999999999999999999999999999999999999"), Err(Error::Overflow(40)));
    assert_eq!(read::<STANDARD>(b"1.7976931348623159e308"), Err(Error::Overflow(22)));
    assert_eq!(read32::<STANDARD>(b"3.5e38"), Err(Error::Overflow(6)));
    let mut options = ParseOptions::default();
    options.lossy = true;
    let read = |text: &[u8]| {
        from_lexical_float::<Float64, STANDARD>(text, &options).map(|f| f64::from_bits(f.bits))
    };
    assert_eq!(read(b"1e400"), Ok(f64::INFINITY));
    assert_eq!(read(b"-1e400"), Ok(f64::NEG_INFINITY));
    assert_eq!(read(b"1e-400").map(f64::to_bits), Ok(0));
    assert_eq!(read(b"-1e-400").map(f64::to_bits), Ok((-0.0f64).to_bits()));
}

#[test]
fn numbers_too_near_zero() {
    assert_eq!(read::<STANDARD>(b"1e-400"), Err(Error::Underflow(6)));
    assert_eq!(read::<STANDARD>(b"1e-99999999999999999999999999999999"), Err(Error::Underflow(35)));
    assert_eq!(read::<STANDARD>(b"2e-324"), Err(Error::Underflow(6)));
    assert_eq!(read::<STANDARD>(b"3e-324"), Ok(f64::from_bits(1)));
    assert_eq!(read::<STANDARD>(b"0e-400"), Ok(0.0));
    assert_eq!(read::<STANDARD>(b"0.0"), Ok(0.0));
}

#[test]
fn hexadecimal_float() {
    let mut options = ParseOptions::from_radix(16);
    options.exponent = b'p';
    let hex = |text: &[u8]| {
        from_lexical_float::<Float64, HEX>(text, &options).map(|f| f64::from_bits(f.bits))
    };
    assert_eq!(hex(b"0x1.8p+1"), Ok(3.0_f64));
    assert_eq!(hex(b"0X1.8P+1"), Ok(3.0_f64));
    assert_eq!(hex(b"1.8p1"), Ok(3.0_f64));
    assert_eq!(hex(b"0x1p-1074"), Ok(f64::from_bits(1)));
    assert_eq!(hex(b"0x1.fffffffffffffp1023"), Ok(f64::MAX));
    assert_eq!(hex(b"0x1.fffffffffffff8p1023"), Err(Error::Overflow(23)));
    assert_eq!(hex(b"0x1.fffffffffffff7p1023"), Ok(f64::MAX));
    assert_eq!(hex(b"0x.8p0"), Ok(0.5));
    assert_eq!(hex(b"0xA.8"), Ok(10.5));
    assert_eq!(hex(b"0x"), Err(Error::EmptyMantissa));
    assert_eq!(hex(b"0"), Ok(0.0));
    assert_eq!(read::<HEX_SUFFIX>(b"ff.8h"), Ok(255.5));
    assert_eq!(read::<HEX_SUFFIX>(b"ff.8H"), Ok(255.5));
    assert_eq!(read::<HEX_SUFFIX>(b"1^2"), Ok(256.0));
    assert_eq!(read::<HEX_SUFFIX>(b"ff.8hh"), Err(Error::InvalidDigit(5)));
}

#[test]
fn halfway_cases_round_to_even() {
    // 2^53 + 1 lies halfway between two floats.
    assert_eq!(read::<STANDARD>(b"9007199254740993"), Ok(9007199254740992.0));
    assert_eq!(read::<STANDARD>(b"9007199254740995"), Ok(9007199254740996.0));
    assert_eq!(read::<STANDARD>(b"9007199254740993.000000000000000000000000001"), Ok(9007199254740994.0));
    assert_eq!(read::<STANDARD>(b"9007199254740992.999999999999999999999999999"), Ok(9007199254740992.0));
    // Half of the smallest float.
    assert_eq!(
        read::<STANDARD>(b"2.4703282292062327208051222187016124708678321105222348118916790510934e-324"),
        Err(Error::Underflow(74))
    );
    assert_eq!(
        read::<STANDARD>(b"2.4703282292062327208051222187016124708678321105222348118916790510935e-324"),
        Err(Error::Underflow(74))
    );
    assert_eq!(read::<STANDARD>(b"2.5e-324"), Ok(f64::from_bits(1)));
    assert_eq!(read32::<STANDARD>(b"16777217"), Ok(16777216.0));
    assert_eq!(read32::<STANDARD>(b"16777219"), Ok(16777220.0));
}

#[test]
fn matches_the_standard_library() {
    let texts: [&str; 24] = [
        "0", "1", "-1", "0.1", "0.2", "0.3", "1e23", "8.5e-5", "123456789.125", "1.0e-10",
        "2.2250738585072014e-308", "2.2250738585072011e-308", "4.9406564584124654e-324",
        "1.7976931348623157e308", "0.000001", "1e22", "1e-22", "6.02214076e23", "299792458",
        "0.30000000000000004", "5e-324", "1.5", "100000000000000000000", "7.038531e-26",
    ];
    for text in texts {
        let expected: f64 = text.parse().unwrap();
        assert_eq!(read::<STANDARD>(text.as_bytes()).map(f64::to_bits), Ok(expected.to_bits()));
        let expected: f32 = text.parse().unwrap();
        if expected.is_finite() && (expected != 0.0 || text == "0") {
            assert_eq!(read32::<STANDARD>(text.as_bytes()).map(f32::to_bits), Ok(expected.to_bits()));
        }
    }
}

#[test]
fn special_values() {
    assert!(read::<STANDARD>(b"NaN").unwrap().is_nan());
    assert!(read::<STANDARD>(b"nan").unwrap().is_nan());
    assert!(read::<STANDARD>(b"-NAN").unwrap().is_sign_negative());
    assert_eq!(read::<STANDARD>(b"inf"), Ok(f64::INFINITY));
    assert_eq!(read::<STANDARD>(b"-Inf"), Ok(f64::NEG_INFINITY));
    assert_eq!(read::<STANDARD>(b"+inf"), Ok(f64::INFINITY));
    assert_eq!(read32::<STANDARD>(b"inf"), Ok(f32::INFINITY));
    assert_eq!(read::<STANDARD>(b"infinity"), Err(Error::InvalidDigit(3)));
    assert_eq!(read::<STANDARD>(b"in"), Err(Error::EmptyMantissa));
    assert_eq!(read::<{ STANDARD | CASE_SENSITIVE_SPECIAL }>(b"nan"), Err(Error::EmptyMantissa));
    assert!(read::<{ STANDARD | CASE_SENSITIVE_SPECIAL }>(b"NaN").unwrap().is_nan());
    assert_eq!(read::<{ STANDARD | NO_SPECIAL }>(b"NaN"), Err(Error::EmptyMantissa));
    assert_eq!(read::<UNDERSCORE>(b"N_a_N"), Err(Error::EmptyMantissa));
    assert!(read::<SPECIAL>(b"N_a_N").unwrap().is_nan());
    assert!(read::<SPECIAL>(b"-__N_a__N_").unwrap().is_nan());
    assert_eq!(read::<SPECIAL>(b"i_n_f"), Ok(f64::INFINITY));
    assert_eq!(read::<SPECIAL>(b"1_0"), Err(Error::InvalidDigit(1)));
    let mut options = ParseOptions::default();
    options.nan_string = None;
    options.inf_string = Some(b"Infinity");
    let read = |text: &[u8]| {
        from_lexical_float::<Float64, STANDARD>(text, &options).map(|f| f64::from_bits(f.bits))
    };
    assert_eq!(read(b"NaN"), Err(Error::EmptyMantissa));
    assert_eq!(read(b"infinity"), Ok(f64::INFINITY));
    assert_eq!(read(b"inf"), Err(Error::EmptyMantissa));
}

#[test]
fn malformed_floats() {
    assert_eq!(read::<STANDARD>(b""), Err(Error::Empty));
    assert_eq!(read::<STANDARD>(b"-"), Err(Error::Empty));
    assert_eq!(read::<STANDARD>(b"."), Err(Error::EmptyMantissa));
    assert_eq!(read::<STANDARD>(b"e5"), Err(Error::EmptyMantissa));
    assert_eq!(read::<STANDARD>(b"1e"), Err(Error::EmptyExponent));
    assert_eq!(read::<STANDARD>(b"1e+"), Err(Error::EmptyExponent));
    assert_eq!(read::<STANDARD>(b"1.5x"), Err(Error::InvalidDigit(3)));
    assert_eq!(read::<STANDARD>(b"1.5.5"), Err(Error::InvalidDigit(3)));
    assert_eq!(read::<STANDARD>(b"1e5e5"), Err(Error::InvalidDigit(3)));
    assert_eq!(read::<STANDARD>(b"--1"), Err(Error::EmptyMantissa));
    assert_eq!(read::<STANDARD>(b"1_0"), Err(Error::InvalidDigit(1)));
    assert_eq!(read::<STANDARD>(b"1."), Ok(1.0));
    assert_eq!(read::<STANDARD>(b".5"), Ok(0.5));
    assert_eq!(read::<STANDARD>(b"1E5"), Ok(1e5));
    assert_eq!(read::<STANDARD>(b"+1.5e-3"), Ok(1.5e-3));
    assert_eq!(read::<STANDARD>(b"007.50"), Ok(7.5));
}

#[test]
fn flags_of_the_format() {
    assert_eq!(read::<{ STANDARD - REQUIRED_EXPONENT_DIGITS }>(b"1e"), Ok(1.0));
    assert_eq!(read::<{ STANDARD | REQUIRED_INTEGER_DIGITS }>(b".5"), Err(Error::EmptyInteger));
    assert_eq!(read::<{ STANDARD | NO_FRACTION_WITHOUT_INTEGER }>(b".5"), Err(Error::EmptyInteger));
    assert_eq!(read::<{ STANDARD | REQUIRED_FRACTION_DIGITS }>(b"1."), Err(Error::EmptyFraction));
    assert_eq!(read::<{ STANDARD | REQUIRED_FRACTION_DIGITS }>(b"1"), Ok(1.0));
    assert_eq!(read::<{ STANDARD | REQUIRED_MANTISSA_SIGN }>(b"1"), Err(Error::MissingMantissaSign(0)));
    assert_eq!(read::<{ STANDARD | REQUIRED_MANTISSA_SIGN }>(b"+1"), Ok(1.0));
    assert_eq!(
        read::<{ STANDARD | NO_POSITIVE_MANTISSA_SIGN }>(b"+1"),
        Err(Error::InvalidPositiveMantissaSign(0))
    );
    assert_eq!(read::<{ STANDARD | REQUIRED_EXPONENT_SIGN }>(b"1e5"), Err(Error::MissingExponentSign(2)));
    assert_eq!(read::<{ STANDARD | REQUIRED_EXPONENT_SIGN }>(b"1e+5"), Ok(1e5));
    assert_eq!(
        read::<{ STANDARD | NO_POSITIVE_EXPONENT_SIGN }>(b"1e+5"),
        Err(Error::InvalidPositiveExponentSign(2))
    );
    assert_eq!(read::<{ STANDARD | NO_POSITIVE_EXPONENT_SIGN }>(b"1e-5"), Ok(1e-5));
    assert_eq!(read::<{ STANDARD | REQUIRED_EXPONENT_NOTATION }>(b"1.5"), Err(Error::EmptyExponent));
    assert_eq!(read::<{ STANDARD | REQUIRED_EXPONENT_NOTATION }>(b"1.5e0"), Ok(1.5));
    assert_eq!(read::<{ STANDARD | NO_EXPONENT_NOTATION }>(b"1.5e0"), Err(Error::InvalidDigit(3)));
    assert_eq!(
        read::<{ STANDARD | NO_EXPONENT_WITHOUT_FRACTION }>(b"1e5"),
        Err(Error::ExponentWithoutFraction(1))
    );
    assert_eq!(read::<{ STANDARD | NO_EXPONENT_WITHOUT_FRACTION }>(b"1.0e5"), Ok(1e5));
    assert_eq!(read::<{ STANDARD | NO_FLOAT_LEADING_ZEROS }>(b"01.5"), Err(Error::InvalidLeadingZeros(0)));
    assert_eq!(read::<{ STANDARD | NO_FLOAT_LEADING_ZEROS }>(b"0.5"), Ok(0.5));
    assert_eq!(read::<{ STANDARD | NO_FLOAT_LEADING_ZEROS }>(b"-00"), Err(Error::InvalidLeadingZeros(1)));
}

#[test]
fn separators_in_floats() {
    assert_eq!(read::<UNDERSCORE>(b"1_000.000_1e1_0"), Ok(1000.0001e10));
    assert_eq!(read::<UNDERSCORE>(b"1_000_.5"), Err(Error::InvalidDigit(5)));
    assert_eq!(read::<UNDERSCORE>(b"1._5"), Err(Error::InvalidDigit(2)));
    assert_eq!(read::<UNDERSCORE>(b"1.5e_5"), Err(Error::EmptyExponent));
    assert_eq!(read::<UNDERSCORE>(b"1__0"), Err(Error::InvalidDigit(2)));
}

#[test]
fn partial_floats() {
    let options = ParseOptions::default();
    let read = |text: &[u8]| {
        from_lexical_float_partial::<Float64, STANDARD>(text, &options)
            .map(|(f, n)| (f64::from_bits(f.bits), n))
    };
    assert_eq!(read(b"1.5 apples"), Ok((1.5, 3)));
    assert_eq!(read(b"1.5e3x"), Ok((1500.0, 5)));
    assert_eq!(read(b"inf!"), Ok((f64::INFINITY, 3)));
    assert_eq!(read(b"1.5.5"), Ok((1.5, 3)));
    assert_eq!(read(b"x"), Err(Error::EmptyMantissa));
    assert_eq!(read(b"1e400 "), Err(Error::Overflow(5)));
}

#[test]
fn floats_in_other_radices() {
    assert_eq!(read::<BINARY>(b"101.01"), Ok(5.25));
    assert_eq!(read::<BINARY>(b"1e10"), Ok(1024.0));
    assert_eq!(read::<BINARY>(b"1.1e-1"), Ok(0.75));
    assert_eq!(read::<BASE3>(b"0.1"), Ok(1.0 / 3.0));
    assert_eq!(read::<BASE3>(b"10.2"), Ok(3.0 + 2.0 / 3.0));
    assert_eq!(read::<BASE3>(b"1e2"), Ok(9.0));
}

#[test]
fn separators_change_no_float_where_allowed() {
    let with: [&[u8]; 5] = [b"1_000.5", b"1.000_1", b"1e1_0", b"-1_2.3_4e-5_6", b"1_2_3"];
    let without: [&[u8]; 5] = [b"1000.5", b"1.0001", b"1e10", b"-12.34e-56", b"123"];
    for (a, b) in with.iter().zip(without.iter()) {
        assert_eq!(read::<UNDERSCORE>(a), read::<STANDARD>(b));
    }
}

#[test]
fn known_texts_are_read_as_stated() {
    assert_eq!(lexical::format::mantissa_radix(HEX), 16);
    assert_eq!(lexical::format::exponent_base(HEX), 2);
    assert_eq!(lexical::format::exponent_radix(HEX), 10);
    assert_eq!(lexical::format::digit_separator(HEX), 0);
    assert_eq!(lexical::format::base_prefix(HEX), b'x');
    assert_eq!(lexical::format::base_suffix(HEX), 0);
    assert!(!lexical::format::has_flag(HEX, lexical::format::REQUIRED_MANTISSA_SIGN));
    assert!(!lexical::format::has_flag(HEX, lexical::format::NO_POSITIVE_EXPONENT_SIGN));
    assert!(!lexical::format::has_flag(HEX, lexical::format::NO_EXPONENT_NOTATION));
    assert!(is_valid(HEX));
    let mut options = ParseOptions::from_radix(16);
    options.exponent = b'p';
    let read = from_lexical_float::<Float64, HEX>(b"0x1.8p+1", &options).unwrap();
    assert_eq!(read.bits, 0x4008_0000_0000_0000);
    let pi = from_lexical_float::<Float64, STANDARD>(b"3.14159265358979", &ParseOptions::default());
    assert_eq!(pi.unwrap().bits, 0x4009_21FB_5444_2D11);
    let strict = ParseOptions::default();
    assert_eq!(
        from_lexical_float::<Float64, STANDARD>(b"1e400", &strict),
        Err(Error::Overflow(5))
    );
    let mut lossy = ParseOptions::default();
    lossy.lossy = true;
    let inf = from_lexical_float::<Float64, STANDARD>(b"1e400", &lossy).unwrap();
    assert_eq!(inf.bits, f64::INFINITY.to_bits());
}
