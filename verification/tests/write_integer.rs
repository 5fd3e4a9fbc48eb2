use lexical::compact::{write_digits, Compact};
use lexical::format::{
    EXPONENT_BASE_UNIT, EXPONENT_RADIX_UNIT, MANTISSA_RADIX_UNIT, REQUIRED_MANTISSA_SIGN, STANDARD,
};
use lexical::integer::{try_write_integer, write_integer};
use lexical::size::INTEGER_SIZE;

const HEXADECIMAL: u128 =
    16 * MANTISSA_RADIX_UNIT + 16 * EXPONENT_BASE_UNIT + 10 * EXPONENT_RADIX_UNIT;
const SIGNED: u128 = STANDARD | REQUIRED_MANTISSA_SIGN;
const BINARY: u128 = 2 * MANTISSA_RADIX_UNIT + 2 * EXPONENT_BASE_UNIT + 2 * EXPONENT_RADIX_UNIT;
const UNARY: u128 = MANTISSA_RADIX_UNIT + 2 * EXPONENT_BASE_UNIT + 2 * EXPONENT_RADIX_UNIT;

#[test]
fn compact_writes_zero() {
    let mut buffer = [b'x'; 8];
    let count = 0u32.compact(10, &mut buffer);
    assert_eq!(count, 1);
    assert_eq!(&buffer[..count], b"0");
    assert_eq!(&buffer[count..], b"xxxxxxx");
}

#[test]
fn compact_writes_decimal() {
    let mut buffer = [0u8; 32];
    let count = 12345u32.compact(10, &mut buffer);
    assert_eq!(&buffer[..count], b"12345");
}

#[test]
fn compact_writes_u64_max() {
    let mut buffer = [0u8; 32];
    let count = u64::MAX.compact(10, &mut buffer);
    assert_eq!(&buffer[..count], b"18446744073709551615");
}

#[test]
fn compact_writes_every_width() {
    let mut buffer = [0u8; 128];
    let count = u8::MAX.compact(10, &mut buffer);
    assert_eq!(&buffer[..count], b"255");
    let count = u16::MAX.compact(16, &mut buffer);
    assert_eq!(&buffer[..count], b"FFFF");
    let count = usize::MAX.compact(2, &mut buffer);
    assert_eq!(count, usize::BITS as usize);
    assert!(buffer[..count].iter().all(|&c| c == b'1'));
    let count = u128::MAX.compact(2, &mut buffer);
    assert_eq!(count, 128);
    let count = u128::MAX.compact(10, &mut buffer);
    assert_eq!(&buffer[..count], b"340282366920938463463374607431768211455");
}

#[test]
fn write_digits_in_radix_36() {
    let mut buffer = [0u8; 32];
    let count = write_digits(35 * 36 + 10, 36, &mut buffer);
    assert_eq!(&buffer[..count], b"ZA");
}

#[test]
fn write_digits_has_no_leading_zero() {
    let mut buffer = [0u8; 128];
    for radix in 2..=36u32 {
        for value in [1u128, 7, 35, 36, 1000, u64::MAX as u128, u128::MAX] {
            let count = write_digits(value, radix, &mut buffer);
            assert_ne!(buffer[0], b'0');
            let text = std::str::from_utf8(&buffer[..count]).unwrap();
            assert_eq!(u128::from_str_radix(text, radix), Ok(value));
        }
    }
}

#[test]
fn write_is_the_same_twice() {
    let mut first = [0u8; 32];
    let count = write_digits(987654321, 10, &mut first);
    let mut second = first;
    let again = write_digits(987654321, 10, &mut second);
    assert_eq!(count, again);
    assert_eq!(first, second);
    let mut dirty = [b'#'; 32];
    write_digits(987654321, 10, &mut dirty);
    assert_eq!(&dirty[..count], &first[..count]);
    assert!(dirty[count..].iter().all(|&c| c == b'#'));
}

#[test]
fn write_integer_with_sign() {
    let mut buffer = [0u8; 64];
    let count = write_integer::<STANDARD>(true, 42, &mut buffer);
    assert_eq!(&buffer[..count], b"-42");
    let count = write_integer::<STANDARD>(false, 42, &mut buffer);
    assert_eq!(&buffer[..count], b"42");
    let count = write_integer::<SIGNED>(false, 42, &mut buffer);
    assert_eq!(&buffer[..count], b"+42");
    let count = write_integer::<HEXADECIMAL>(true, 0xbeef, &mut buffer);
    assert_eq!(&buffer[..count], b"-BEEF");
    let count = write_integer::<STANDARD>(true, i64::MIN.unsigned_abs() as u128, &mut buffer);
    assert_eq!(&buffer[..count], b"-9223372036854775808");
}

#[test]
fn both_digit_generators_write_the_same_bytes() {
    let values = [
        0u128,
        1,
        9,
        10,
        35,
        36,
        99,
        100,
        1295,
        1296,
        12345,
        u32::MAX as u128,
        u64::MAX as u128,
        u128::MAX,
        u128::MAX / 3,
        1 << 127,
    ];
    for radix in 2u32..=36 {
        for value in values {
            let mut one = [0u8; 128];
            let mut two = [0u8; 128];
            let first = lexical::compact::write_digits(value, radix, &mut one);
            let second = lexical::algorithm::write_digits(value, radix, &mut two);
            assert_eq!(first, second);
            assert_eq!(one, two);
            let text = std::str::from_utf8(&two[..second]).unwrap();
            assert_eq!(u128::from_str_radix(text, radix).unwrap(), value);
        }
    }
    let mut bytes = [0u8; 128];
    let count = lexical::algorithm::write_digits(123456, 10, &mut bytes);
    assert_eq!(&bytes[..count], b"123456");
    let count = lexical::algorithm::write_digits(12345, 10, &mut bytes);
    assert_eq!(&bytes[..count], b"12345");
    let count = lexical::algorithm::write_digits(255, 16, &mut bytes);
    assert_eq!(&bytes[..count], b"FF");
}

#[test]
fn every_integer_fits_in_the_size_given() {
    let mut bytes = [0u8; INTEGER_SIZE];
    assert_eq!(try_write_integer::<BINARY>(true, u128::MAX, &mut bytes), Some(129));
    assert_eq!(bytes[0], b'-');
    assert!(bytes[1..].iter().all(|&c| c == b'1'));
    assert_eq!(try_write_integer::<STANDARD>(false, 12345, &mut bytes), Some(5));
    assert_eq!(&bytes[..5], b"12345");
    let mut short = [9u8; INTEGER_SIZE - 1];
    assert_eq!(try_write_integer::<STANDARD>(false, 1, &mut short), None);
    assert!(short.iter().all(|&c| c == 9));
    assert_eq!(try_write_integer::<UNARY>(false, 1, &mut bytes), None);
}
