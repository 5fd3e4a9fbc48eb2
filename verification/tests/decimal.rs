use lexical::decimal::round_digits;
use lexical::float::{Float32, Float64};
use lexical::format::{
    is_valid, EXPONENT_BASE_UNIT, EXPONENT_RADIX_UNIT, MANTISSA_RADIX_UNIT, NO_EXPONENT_NOTATION,
    REQUIRED_EXPONENT_NOTATION, STANDARD,
};
use lexical::options::{Options, ParseOptions};
use lexical::parse_float::from_lexical_float;
use lexical::shortest::shortest_digits;
use lexical::write::WriteFloat;

const SCIENTIFIC: u128 = STANDARD | REQUIRED_EXPONENT_NOTATION;
const POSITIONAL: u128 = STANDARD | NO_EXPONENT_NOTATION;
const BASE3: u128 = 3 * MANTISSA_RADIX_UNIT + 3 * EXPONENT_BASE_UNIT + 10 * EXPONENT_RADIX_UNIT;
const BASE36: u128 = 36 * MANTISSA_RADIX_UNIT + 36 * EXPONENT_BASE_UNIT + 10 * EXPONENT_RADIX_UNIT;

fn write<const FORMAT: u128>(value: f64, options: &Options) -> String {
    assert!(is_valid(FORMAT));
    let mut buffer = [b'#'; 1200];
    let count = Float64::from_bits(value.to_bits()).write_float::<FORMAT>(&mut buffer, options);
    assert!(buffer[count..].iter().all(|&c| c == b'#'));
    String::from_utf8(buffer[..count].to_vec()).unwrap()
}

fn write32<const FORMAT: u128>(value: f32, options: &Options) -> String {
    let mut buffer = [b'#'; 1200];
    let count = Float32::from_bits(value.to_bits()).write_float::<FORMAT>(&mut buffer, options);
    String::from_utf8(buffer[..count].to_vec()).unwrap()
}

fn read<const FORMAT: u128>(text: &str) -> f64 {
    let options = ParseOptions::from_radix(lexical::format::mantissa_radix(FORMAT));
    f64::from_bits(from_lexical_float::<Float64, FORMAT>(text.as_bytes(), &options).unwrap().bits)
}

fn read32<const FORMAT: u128>(text: &str) -> f32 {
    let options = ParseOptions::from_radix(lexical::format::mantissa_radix(FORMAT));
    f32::from_bits(from_lexical_float::<Float32, FORMAT>(text.as_bytes(), &options).unwrap().bits)
}

struct Random(u64);

impl Random {
    fn next(&mut self) -> u64 {
        self.0 ^= self.0 << 13;
        self.0 ^= self.0 >> 7;
        self.0 ^= self.0 << 17;
        self.0
    }
}

#[test]
fn one_with_and_without_its_fraction() {
    let mut options = Options::default();
    assert_eq!(write::<STANDARD>(1.0, &options), "1.0");
    options.trim_floats = true;
    assert_eq!(write::<STANDARD>(1.0, &options), "1");
}

#[test]
fn decimal_floats() {
    let options = Options::default();
    assert_eq!(write::<STANDARD>(0.0, &options), "0.0");
    assert_eq!(write::<STANDARD>(-0.0, &options), "-0.0");
    assert_eq!(write::<STANDARD>(0.1, &options), "0.1");
    assert_eq!(write::<STANDARD>(0.3, &options), "0.3");
    assert_eq!(write::<STANDARD>(0.1 + 0.2, &options), "0.30000000000000004");
    assert_eq!(write::<STANDARD>(-12.5, &options), "-12.5");
    assert_eq!(write::<STANDARD>(123456789.0, &options), "123456789.0");
    assert_eq!(write::<STANDARD>(1234567890.0, &options), "1234567890.0");
    assert_eq!(write::<STANDARD>(12345678901.0, &options), "1.2345678901e10");
    assert_eq!(write::<STANDARD>(1e10, &options), "1.0e10");
    assert_eq!(write::<STANDARD>(1e-5, &options), "0.00001");
    assert_eq!(write::<STANDARD>(1e-6, &options), "1.0e-6");
    assert_eq!(write::<STANDARD>(3.14159265358979, &options), "3.14159265358979");
    assert_eq!(write::<STANDARD>(f64::MAX, &options), "1.7976931348623157e308");
    assert_eq!(write::<STANDARD>(f64::MIN_POSITIVE, &options), "2.2250738585072014e-308");
    assert_eq!(write::<STANDARD>(f64::from_bits(1), &options), "5.0e-324");
    assert_eq!(write::<STANDARD>(9007199254740992.0, &options), "9.007199254740992e15");
    assert_eq!(write::<STANDARD>(1e23, &options), "1.0e23");
    assert_eq!(write::<STANDARD>(9.5, &options), "9.5");
    assert_eq!(write::<STANDARD>(99999999999999990000.0, &options), "9.999999999999998e19");
    assert_eq!(write::<STANDARD>(-1149636667324797.25, &options), "-1.1496366673247972e15");
    assert_eq!(write::<STANDARD>(1149636667324797.75, &options), "1.1496366673247978e15");
    assert_eq!(write32::<STANDARD>(0.1, &options), "0.1");
    assert_eq!(write32::<STANDARD>(16777216.0, &options), "16777216.0");
    assert_eq!(write32::<STANDARD>(f32::MAX, &options), "3.4028235e38");
    assert_eq!(write32::<STANDARD>(f32::from_bits(1), &options), "1.0e-45");
    assert_eq!(write::<POSITIONAL>(1e21, &options), "1000000000000000000000.0");
    assert_eq!(write::<POSITIONAL>(1.5e-7, &options), "0.00000015");
    assert_eq!(write::<SCIENTIFIC>(12.5, &options), "1.25e1");
}

#[test]
fn decimal_floats_with_options() {
    let mut options = Options::default();
    options.decimal_point = b',';
    options.exponent = b'E';
    assert_eq!(write::<STANDARD>(1.5, &options), "1,5");
    assert_eq!(write::<STANDARD>(1.5e300, &options), "1,5E300");
    let mut options = Options::default();
    options.negative_exponent_break = -2;
    options.positive_exponent_break = 2;
    assert_eq!(write::<STANDARD>(0.01, &options), "0.01");
    assert_eq!(write::<STANDARD>(0.001, &options), "1.0e-3");
    assert_eq!(write::<STANDARD>(100.0, &options), "100.0");
    assert_eq!(write::<STANDARD>(1000.0, &options), "1.0e3");
    let mut options = Options::default();
    options.min_significant_digits = Some(4);
    assert_eq!(write::<STANDARD>(1.5, &options), "1.500");
    assert_eq!(write::<STANDARD>(0.015, &options), "0.01500");
    assert_eq!(write::<STANDARD>(1.5e20, &options), "1.500e20");
    assert_eq!(write::<STANDARD>(123456.0, &options), "123456.0");
    let mut options = Options::default();
    options.max_significant_digits = Some(3);
    assert_eq!(write::<STANDARD>(1.2345, &options), "1.23");
    assert_eq!(write::<STANDARD>(1.2355, &options), "1.24");
    assert_eq!(write::<STANDARD>(1.235, &options), "1.24");
    assert_eq!(write::<STANDARD>(1.245, &options), "1.24");
    assert_eq!(write::<STANDARD>(9.996, &options), "10.0");
    assert_eq!(write::<STANDARD>(99960.0, &options), "100000.0");
    assert_eq!(write::<STANDARD>(9.996e20, &options), "1.0e21");
    assert_eq!(write::<STANDARD>(0.5, &options), "0.5");
}

#[test]
fn rounding_digits() {
    assert_eq!(round_digits(vec![1, 2, 3], None, 10), (vec![1, 2, 3], false));
    assert_eq!(round_digits(vec![1, 2, 3], Some(3), 10), (vec![1, 2, 3], false));
    assert_eq!(round_digits(vec![1, 2, 3], Some(2), 10), (vec![1, 2], false));
    assert_eq!(round_digits(vec![1, 2, 5], Some(2), 10), (vec![1, 2], false));
    assert_eq!(round_digits(vec![1, 3, 5], Some(2), 10), (vec![1, 4], false));
    assert_eq!(round_digits(vec![1, 2, 5, 1], Some(2), 10), (vec![1, 3], false));
    assert_eq!(round_digits(vec![9, 9, 5], Some(2), 10), (vec![1, 0], true));
    assert_eq!(round_digits(vec![1, 1, 1], Some(1), 3), (vec![1], false));
    assert_eq!(round_digits(vec![1, 1, 2], Some(1), 3), (vec![2], false));
    assert_eq!(round_digits(vec![2, 2, 2], Some(1), 3), (vec![1], true));
}

#[test]
fn shortest_digits_of_some_floats() {
    let digits = |x: f64| shortest_digits(x.to_bits(), lexical::float::FloatKind::Binary64, 10);
    assert_eq!(digits(1.0), (vec![1], 1));
    assert_eq!(digits(0.1), (vec![1], 0));
    assert_eq!(digits(12.5), (vec![1, 2, 5], 2));
    assert_eq!(digits(5e-324), (vec![5], -323));
    assert_eq!(digits(1.7976931348623157e308).1, 309);
    assert_eq!(digits(9.5), (vec![9, 5], 1));
    assert_eq!(digits(1e23), (vec![1], 24));
    assert_eq!(digits(0.3), (vec![3], 0));
    assert_eq!(digits(2.0f64.powi(-1074) * 3.0), (vec![1, 5], -322));
}

fn expected(value: f64) -> String {
    let text = format!("{:e}", value);
    let (mantissa, exponent) = text.split_once('e').unwrap();
    if mantissa.contains('.') {
        format!("{}e{}", mantissa, exponent)
    } else {
        format!("{}.0e{}", mantissa, exponent)
    }
}

/// Where two numbers of the shortest length lie equally near to a float,
/// the one with the even last digit is written.
fn same_or_even(written: &str, expected: &str, value: f64) {
    if written != expected {
        assert_eq!(written.len(), expected.len());
        let (mantissa, _) = written.split_once('e').unwrap();
        let last = mantissa.as_bytes()[mantissa.len() - 1];
        assert_eq!((last - b'0') % 2, 0);
        let a = read::<STANDARD>(written);
        let b = read::<STANDARD>(expected);
        assert_eq!(a.to_bits(), value.to_bits());
        assert_eq!(b.to_bits(), value.to_bits());
        let written: i128 = mantissa.replace(['.', '-'], "").parse().unwrap();
        let (mantissa, _) = expected.split_once('e').unwrap();
        let expected: i128 = mantissa.replace(['.', '-'], "").parse().unwrap();
        assert_eq!((written - expected).abs(), 1);
    }
}

#[test]
fn digits_are_those_of_the_standard_library() {
    let options = Options::default();
    let mut random = Random(0x2545_f491_4f6c_dd1d);
    let mut checked = 0;
    while checked < 300 {
        let value = f64::from_bits(random.next());
        if !value.is_finite() || value == 0.0 {
            continue;
        }
        same_or_even(&write::<SCIENTIFIC>(value, &options), &expected(value), value);
        checked += 1;
    }
    for value in [1.0, 0.1, 1e22, 1e23, 5e-324, f64::MAX, f64::MIN_POSITIVE, 4.35, 0.000123] {
        assert_eq!(write::<SCIENTIFIC>(value, &options), expected(value));
    }
}

#[test]
fn written_floats_read_back() {
    let options = Options::default();
    let mut random = Random(0x9e37_79b9_7f4a_7c15);
    let mut checked = 0;
    while checked < 200 {
        let value = f64::from_bits(random.next());
        if !value.is_finite() {
            continue;
        }
        let text = write::<STANDARD>(value, &options);
        assert_eq!(read::<STANDARD>(&text).to_bits(), value.to_bits());
        checked += 1;
    }
    for value in [0.0, -0.0, 1.0, -1.5, 5e-324, -5e-324, f64::MAX, f64::MIN, f64::MIN_POSITIVE] {
        let text = write::<STANDARD>(value, &options);
        assert_eq!(read::<STANDARD>(&text).to_bits(), value.to_bits());
    }
    let mut checked = 0;
    while checked < 200 {
        let value = f32::from_bits(random.next() as u32);
        if !value.is_finite() {
            continue;
        }
        let text = write32::<STANDARD>(value, &options);
        assert_eq!(read32::<STANDARD>(&text).to_bits(), value.to_bits());
        checked += 1;
    }
}

#[test]
fn written_floats_read_back_in_other_radices() {
    let mut random = Random(0x0123_4567_89ab_cdef);
    let three = Options::from_radix(3);
    let large = Options::from_radix(36);
    let mut checked = 0;
    while checked < 60 {
        let value = f64::from_bits(random.next());
        if !value.is_finite() {
            continue;
        }
        let text = write::<BASE3>(value, &three);
        assert_eq!(read::<BASE3>(&text).to_bits(), value.to_bits());
        let text = write::<BASE36>(value, &large);
        assert_eq!(read::<BASE36>(&text).to_bits(), value.to_bits());
        checked += 1;
    }
    assert_eq!(write::<BASE3>(1.0 / 3.0, &three), "0.1");
    assert_eq!(write::<BASE3>(9.0, &three), "100.0");
    assert_eq!(write::<BASE36>(35.5, &large), "Z.I");
}

#[test]
fn no_digit_can_be_left_off() {
    let options = Options::default();
    let mut random = Random(0x1357_9bdf_0246_8ace);
    let mut checked = 0;
    while checked < 200 {
        let value = f64::from_bits(random.next() & 0x7fff_ffff_ffff_ffff);
        if !value.is_finite() || value == 0.0 {
            continue;
        }
        let text = write::<SCIENTIFIC>(value, &options);
        let (mantissa, exponent) = text.split_once('e').unwrap();
        if mantissa.len() > 3 {
            let shorter = format!("{}e{}", &mantissa[..mantissa.len() - 1], exponent);
            assert_ne!(read::<STANDARD>(&shorter).to_bits(), value.to_bits());
            let bytes = mantissa.as_bytes();
            let last = bytes[bytes.len() - 2];
            if last != b'9' && last != b'.' {
                let mut raised = bytes[..bytes.len() - 1].to_vec();
                let at = raised.len() - 1;
                raised[at] += 1;
                let raised = format!("{}e{}", String::from_utf8(raised).unwrap(), exponent);
                assert_ne!(read::<STANDARD>(&raised).to_bits(), value.to_bits());
            }
        }
        checked += 1;
    }
}
