use lexical::format::{
    base_prefix, base_suffix, digit_separator, exponent_base, exponent_radix, has_flag, is_valid,
    mantissa_radix, separator_rules, Section, BASE_PREFIX_UNIT, BASE_SUFFIX_UNIT,
    CASE_SENSITIVE_SPECIAL, DIGIT_SEPARATOR_UNIT, EXPONENT_BASE_UNIT, EXPONENT_RADIX_UNIT,
    FRACTION_TRAILING_DIGIT_SEPARATOR, INTEGER_CONSECUTIVE_DIGIT_SEPARATOR,
    INTEGER_INTERNAL_DIGIT_SEPARATOR, MANTISSA_RADIX_UNIT, NO_EXPONENT_NOTATION,
    NO_POSITIVE_EXPONENT_SIGN, NO_POSITIVE_MANTISSA_SIGN, NO_SPECIAL, REQUIRED_EXPONENT_DIGITS,
    REQUIRED_EXPONENT_NOTATION, REQUIRED_EXPONENT_SIGN, REQUIRED_MANTISSA_SIGN,
    SPECIAL_LEADING_DIGIT_SEPARATOR, STANDARD,
};

const DECIMAL: u128 =
    10 * MANTISSA_RADIX_UNIT + 10 * EXPONENT_BASE_UNIT + 10 * EXPONENT_RADIX_UNIT;
const UNDERSCORE: u128 = DECIMAL + (b'_' as u128) * DIGIT_SEPARATOR_UNIT;

#[test]
fn standard_is_decimal_and_valid() {
    assert!(is_valid(STANDARD));
    assert_eq!(mantissa_radix(STANDARD), 10);
    assert_eq!(exponent_base(STANDARD), 10);
    assert_eq!(exponent_radix(STANDARD), 10);
    assert_eq!(digit_separator(STANDARD), 0);
    assert_eq!(base_prefix(STANDARD), 0);
    assert_eq!(base_suffix(STANDARD), 0);
    assert!(has_flag(STANDARD, REQUIRED_EXPONENT_DIGITS));
    assert!(!has_flag(STANDARD, REQUIRED_MANTISSA_SIGN));
    assert_eq!(STANDARD, DECIMAL | REQUIRED_EXPONENT_DIGITS);
}

#[test]
fn fields_are_read_from_their_places() {
    let format = 16 * MANTISSA_RADIX_UNIT
        + 2 * EXPONENT_BASE_UNIT
        + 10 * EXPONENT_RADIX_UNIT
        + (b'_' as u128) * DIGIT_SEPARATOR_UNIT
        + (b'x' as u128) * BASE_PREFIX_UNIT
        + (b'h' as u128) * BASE_SUFFIX_UNIT
        + INTEGER_INTERNAL_DIGIT_SEPARATOR;
    assert_eq!(mantissa_radix(format), 16);
    assert_eq!(exponent_base(format), 2);
    assert_eq!(exponent_radix(format), 10);
    assert_eq!(digit_separator(format), b'_');
    assert_eq!(base_prefix(format), b'x');
    assert_eq!(base_suffix(format), b'h');
    assert!(is_valid(format));
    let rules = separator_rules(format, Section::Integer);
    assert!(rules.internal && !rules.leading && !rules.trailing && !rules.consecutive);
    assert!(separator_rules(format, Section::Fraction).is_contiguous());
}

#[test]
fn radix_out_of_range_is_invalid() {
    assert!(!is_valid(0));
    assert!(!is_valid(MANTISSA_RADIX_UNIT + 10 * EXPONENT_BASE_UNIT + 10 * EXPONENT_RADIX_UNIT));
    assert!(!is_valid(37 * MANTISSA_RADIX_UNIT + 10 * EXPONENT_BASE_UNIT + 10 * EXPONENT_RADIX_UNIT));
    assert!(!is_valid(10 * MANTISSA_RADIX_UNIT + 10 * EXPONENT_BASE_UNIT + EXPONENT_RADIX_UNIT));
    assert!(!is_valid(10 * MANTISSA_RADIX_UNIT + 40 * EXPONENT_BASE_UNIT + 10 * EXPONENT_RADIX_UNIT));
    assert!(is_valid(36 * MANTISSA_RADIX_UNIT + 2 * EXPONENT_BASE_UNIT + 36 * EXPONENT_RADIX_UNIT));
}

#[test]
fn separator_must_be_punctuation() {
    assert!(is_valid(UNDERSCORE));
    assert!(!is_valid(DECIMAL + (b'1' as u128) * DIGIT_SEPARATOR_UNIT));
    assert!(!is_valid(DECIMAL + (b'.' as u128) * DIGIT_SEPARATOR_UNIT));
    assert!(!is_valid(DECIMAL + (b'+' as u128) * DIGIT_SEPARATOR_UNIT));
    assert!(!is_valid(DECIMAL + (b'-' as u128) * DIGIT_SEPARATOR_UNIT));
    assert!(!is_valid(DECIMAL + (b'e' as u128) * DIGIT_SEPARATOR_UNIT));
    assert!(!is_valid(DECIMAL + 200 * DIGIT_SEPARATOR_UNIT));
    let hexadecimal =
        16 * MANTISSA_RADIX_UNIT + 16 * EXPONENT_BASE_UNIT + 10 * EXPONENT_RADIX_UNIT;
    assert!(!is_valid(hexadecimal + (b'a' as u128) * DIGIT_SEPARATOR_UNIT));
    assert!(!is_valid(hexadecimal + (b'^' as u128) * DIGIT_SEPARATOR_UNIT));
    assert!(is_valid(hexadecimal + (b'_' as u128) * DIGIT_SEPARATOR_UNIT));
}

#[test]
fn contradictory_flags_are_invalid() {
    assert!(!is_valid(DECIMAL | REQUIRED_EXPONENT_NOTATION | NO_EXPONENT_NOTATION));
    assert!(!is_valid(DECIMAL | REQUIRED_MANTISSA_SIGN | NO_POSITIVE_MANTISSA_SIGN));
    assert!(!is_valid(DECIMAL | REQUIRED_EXPONENT_SIGN | NO_POSITIVE_EXPONENT_SIGN));
    assert!(!is_valid(DECIMAL | NO_SPECIAL | CASE_SENSITIVE_SPECIAL));
    assert!(!is_valid(UNDERSCORE | NO_SPECIAL | SPECIAL_LEADING_DIGIT_SEPARATOR));
    assert!(is_valid(DECIMAL | NO_SPECIAL));
    assert!(is_valid(DECIMAL | REQUIRED_EXPONENT_NOTATION));
}

#[test]
fn lone_consecutive_flag_is_invalid() {
    assert!(!is_valid(UNDERSCORE | INTEGER_CONSECUTIVE_DIGIT_SEPARATOR));
    assert!(is_valid(
        UNDERSCORE | INTEGER_CONSECUTIVE_DIGIT_SEPARATOR | INTEGER_INTERNAL_DIGIT_SEPARATOR
    ));
    assert!(is_valid(UNDERSCORE | FRACTION_TRAILING_DIGIT_SEPARATOR));
    let rules = separator_rules(UNDERSCORE | INTEGER_CONSECUTIVE_DIGIT_SEPARATOR, Section::Integer);
    assert!(!rules.is_reachable());
    assert!(!rules.is_contiguous());
}
