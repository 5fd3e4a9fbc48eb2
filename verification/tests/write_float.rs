use lexical::binary::{calculate_shl, fast_ceildiv, fast_log2, truncate_and_round};
use lexical::float::{Float32, Float64, RawFloat};
use lexical::format::{
    is_valid, EXPONENT_BASE_UNIT, EXPONENT_RADIX_UNIT, MANTISSA_RADIX_UNIT, NO_EXPONENT_NOTATION,
    NO_EXPONENT_WITHOUT_FRACTION, REQUIRED_EXPONENT_NOTATION, REQUIRED_EXPONENT_SIGN,
    REQUIRED_MANTISSA_SIGN, STANDARD,
};
use lexical::hex::scale_sci_exp;
use lexical::options::{Options, ParseOptions};
use lexical::parse_float::from_lexical_float;
use lexical::size::FLOAT_SIZE;
use lexical::write::{
    backend, can_write, try_write_float, write_inf, write_nan, write_special, Backend, WriteFloat,
};

const BINARY_POSITIONAL: u128 = BINARY | NO_EXPONENT_NOTATION;
const TERNARY: u128 = 3 * MANTISSA_RADIX_UNIT
    + 3 * EXPONENT_BASE_UNIT
    + 3 * EXPONENT_RADIX_UNIT
    + NO_EXPONENT_NOTATION;
const DECIMAL_POSITIONAL: u128 = STANDARD | NO_EXPONENT_NOTATION;
const MIXED: u128 = 10 * MANTISSA_RADIX_UNIT + 2 * EXPONENT_BASE_UNIT + 10 * EXPONENT_RADIX_UNIT;
const HEX: u128 = 16 * MANTISSA_RADIX_UNIT + 2 * EXPONENT_BASE_UNIT + 10 * EXPONENT_RADIX_UNIT;
const HEX_SCIENTIFIC: u128 = HEX | REQUIRED_EXPONENT_NOTATION;
const HEX_POSITIONAL: u128 = HEX | NO_EXPONENT_NOTATION;
const HEX_SIGNED: u128 = HEX | REQUIRED_MANTISSA_SIGN | REQUIRED_EXPONENT_SIGN;
const HEX_FRACTION: u128 = HEX_SCIENTIFIC | NO_EXPONENT_WITHOUT_FRACTION;
const BINARY: u128 = 2 * MANTISSA_RADIX_UNIT + 2 * EXPONENT_BASE_UNIT + 10 * EXPONENT_RADIX_UNIT;
const OCTAL: u128 = 8 * MANTISSA_RADIX_UNIT + 8 * EXPONENT_BASE_UNIT + 8 * EXPONENT_RADIX_UNIT;
const BASE32_OVER_4: u128 =
    16 * MANTISSA_RADIX_UNIT + 4 * EXPONENT_BASE_UNIT + 10 * EXPONENT_RADIX_UNIT;

fn write64<const FORMAT: u128>(value: f64, options: &Options) -> String {
    assert!(is_valid(FORMAT));
    let mut buffer = [b'#'; 1200];
    let count = Float64::from_bits(value.to_bits()).write_float::<FORMAT>(&mut buffer, options);
    assert!(buffer[count..].iter().all(|&c| c == b'#'));
    String::from_utf8(buffer[..count].to_vec()).unwrap()
}

fn write32<const FORMAT: u128>(value: f32, options: &Options) -> String {
    assert!(is_valid(FORMAT));
    let mut buffer = [b'#'; 1200];
    let count = Float32::from_bits(value.to_bits()).write_float::<FORMAT>(&mut buffer, options);
    String::from_utf8(buffer[..count].to_vec()).unwrap()
}

#[test]
fn special_values_in_decimal() {
    let options = Options::default();
    assert_eq!(write64::<STANDARD>(f64::INFINITY, &options), "inf");
    assert_eq!(write64::<STANDARD>(f64::NEG_INFINITY, &options), "-inf");
    assert_eq!(write64::<STANDARD>(f64::NAN.copysign(1.0), &options), "NaN");
    assert_eq!(write64::<STANDARD>(f64::NAN.copysign(-1.0), &options), "-NaN");
    assert_eq!(write32::<STANDARD>(f32::INFINITY, &options), "inf");
    assert_eq!(write32::<STANDARD>(f32::NAN.copysign(-1.0), &options), "-NaN");
}

#[test]
fn special_values_with_other_literals() {
    let mut options = Options::default();
    options.nan_string = Some(b"nan");
    options.inf_string = Some(b"Infinity");
    assert_eq!(write64::<HEX_SIGNED>(f64::INFINITY, &options), "+Infinity");
    assert_eq!(write64::<HEX_SIGNED>(f64::NAN.copysign(1.0), &options), "+nan");
}

#[test]
fn write_special_copies_the_literal() {
    let mut buffer = [b'#'; 8];
    assert_eq!(write_special(&mut buffer, Some(b"NaN")), 3);
    assert_eq!(&buffer, b"NaN#####");
    let options = Options::default();
    assert_eq!(write_nan(&mut buffer, &options, 1), 4);
    assert_eq!(write_inf(&mut buffer, &options, 2), 5);
    assert_eq!(&buffer, b"inf#####");
}

#[test]
fn backend_follows_radix_and_base() {
    assert_eq!(backend(STANDARD), Backend::Decimal);
    assert_eq!(backend(HEX), Backend::Hex);
    assert_eq!(backend(BASE32_OVER_4), Backend::Hex);
    assert_eq!(backend(BINARY), Backend::Binary);
    assert_eq!(backend(OCTAL), Backend::Binary);
    let radix3 = 3 * MANTISSA_RADIX_UNIT + 3 * EXPONENT_BASE_UNIT + 10 * EXPONENT_RADIX_UNIT;
    assert_eq!(backend(radix3), Backend::Radix);
    let mixed = 16 * MANTISSA_RADIX_UNIT + 8 * EXPONENT_BASE_UNIT + 10 * EXPONENT_RADIX_UNIT;
    assert_eq!(backend(mixed), Backend::Radix);
}

#[test]
fn hex_floats_in_positional_notation() {
    let options = Options::from_radix(16);
    assert_eq!(write64::<HEX>(1.0, &options), "1.0");
    assert_eq!(write64::<HEX>(3.0, &options), "3.0");
    assert_eq!(write64::<HEX>(0.5, &options), "0.8");
    assert_eq!(write64::<HEX>(255.5, &options), "FF.8");
    assert_eq!(write64::<HEX>(0.0, &options), "0.0");
    assert_eq!(write64::<HEX>(-0.0, &options), "-0.0");
    assert_eq!(write64::<HEX>(-255.5, &options), "-FF.8");
    assert_eq!(write64::<HEX>(0.0625, &options), "0.1");
    assert_eq!(write64::<HEX>(0.03125, &options), "0.08");
    assert_eq!(write32::<HEX>(1.0, &options), "1.0");
    assert_eq!(write32::<HEX>(255.5, &options), "FF.8");
}

#[test]
fn hex_floats_in_scientific_notation() {
    let options = Options::from_radix(16);
    assert_eq!(write64::<HEX>(1e10, &options), "2.540BE4^32");
    assert_eq!(write64::<HEX>(0.0009765625, &options), "4.0^-12");
    assert_eq!(write64::<HEX_SCIENTIFIC>(3.0, &options), "3.0^0");
    assert_eq!(write64::<HEX_SCIENTIFIC>(255.5, &options), "F.F8^4");
    assert_eq!(write64::<HEX_SIGNED>(1e10, &options), "+2.540BE4^+32");
    assert_eq!(write64::<HEX_POSITIONAL>(1e10, &options), "2540BE400.0");
    assert_eq!(write64::<BASE32_OVER_4>(1e10, &options), "2.540BE4^16");
}

#[test]
fn smallest_and_largest_floats() {
    let options = Options::from_radix(16);
    assert_eq!(write64::<HEX>(f64::MAX, &options), "F.FFFFFFFFFFFF8^1020");
    assert_eq!(write64::<HEX>(f64::from_bits(1), &options), "4.0^-1076");
    assert_eq!(write64::<HEX>(f64::MIN_POSITIVE, &options), "4.0^-1024");
    let text = write64::<HEX_POSITIONAL>(f64::from_bits(1), &options);
    assert_eq!(text.len(), 2 + 269);
    assert!(text.starts_with("0.000"));
    assert!(text.ends_with("04"));
}

#[test]
fn trimmed_and_padded_floats() {
    let mut options = Options::from_radix(16);
    options.trim_floats = true;
    assert_eq!(write64::<HEX>(1.0, &options), "1");
    assert_eq!(write64::<HEX>(-0.0, &options), "-0");
    assert_eq!(write64::<HEX>(255.5, &options), "FF.8");
    assert_eq!(write64::<HEX_SCIENTIFIC>(3.0, &options), "3^0");
    assert_eq!(write64::<HEX_FRACTION>(3.0, &options), "3.0^0");
    options.trim_floats = false;
    options.min_significant_digits = Some(5);
    assert_eq!(write64::<HEX>(1.0, &options), "1.0000");
    assert_eq!(write64::<HEX>(255.5, &options), "FF.800");
    assert_eq!(write64::<HEX>(0.5, &options), "0.80000");
    assert_eq!(write64::<HEX_SCIENTIFIC>(3.0, &options), "3.0000^0");
}

#[test]
fn rounded_floats() {
    let mut options = Options::from_radix(16);
    options.max_significant_digits = Some(2);
    assert_eq!(write64::<HEX>(255.5, &options), "100.0");
    assert_eq!(write64::<HEX>(254.5, &options), "FE.0");
    assert_eq!(write64::<HEX>(254.75, &options), "FF.0");
    assert_eq!(write64::<HEX>(1.0, &options), "1.0");
    options.max_significant_digits = Some(3);
    assert_eq!(write64::<HEX>(255.5, &options), "FF.8");
    options.max_significant_digits = Some(1);
    assert_eq!(write64::<HEX>(0.53125, &options), "0.8");
    assert_eq!(write64::<HEX>(0.59375, &options), "0.A");
}

#[test]
fn binary_and_octal_floats() {
    let options = Options::from_radix(2);
    assert_eq!(write64::<BINARY>(5.0, &options), "101.0");
    assert_eq!(write64::<BINARY>(0.25, &options), "0.01");
    assert_eq!(write64::<BINARY>(1048576.0, &options), "1.0e20");
    assert_eq!(write64::<BINARY>(0.0078125, &options), "1.0e-7");
    let options = Options::from_radix(8);
    assert_eq!(write64::<OCTAL>(8.0, &options), "10.0");
    assert_eq!(write64::<OCTAL>(0.125, &options), "0.1");
    assert_eq!(write64::<OCTAL>(1073741824.0, &options), "1.0e12");
}

#[test]
fn float_fields() {
    let one = Float64::from_bits(1.0f64.to_bits()).parts();
    assert!(!one.negative);
    assert_eq!(one.mantissa(), 1 << 52);
    assert_eq!(one.exponent(), -52);
    assert!(!one.is_special());
    let tiny = Float64::from_bits(1).parts();
    assert_eq!(tiny.mantissa(), 1);
    assert_eq!(tiny.exponent(), -1074);
    let nan = Float64::from_bits(f64::NAN.to_bits()).parts();
    assert!(nan.is_special() && nan.is_nan() && !nan.is_inf());
    let inf = Float32::from_bits(f32::NEG_INFINITY.to_bits()).parts();
    assert!(inf.negative && inf.is_special() && inf.is_inf() && !inf.is_nan());
    let three = Float32::from_bits(3.0f32.to_bits()).parts();
    assert_eq!(three.mantissa(), 3 << 22);
    assert_eq!(three.exponent(), -22);
}

#[test]
fn binary_helpers() {
    assert_eq!(fast_log2(1), 0);
    assert_eq!(fast_log2(2), 1);
    assert_eq!(fast_log2(16), 4);
    assert_eq!(fast_log2(31), 4);
    assert_eq!(fast_log2(32), 5);
    assert_eq!(fast_log2(u32::MAX), 31);
    assert_eq!(fast_ceildiv(0, 4), 0);
    assert_eq!(fast_ceildiv(1, 4), 1);
    assert_eq!(fast_ceildiv(4, 4), 1);
    assert_eq!(fast_ceildiv(5, 4), 2);
    assert_eq!(calculate_shl(0, 4), 0);
    assert_eq!(calculate_shl(5, 4), 1);
    assert_eq!(calculate_shl(-1, 4), 3);
    assert_eq!(calculate_shl(-4, 4), 0);
    assert_eq!(calculate_shl(-53, 4), 3);
    assert_eq!(scale_sci_exp(0, 4, 1), 0);
    assert_eq!(scale_sci_exp(3, 4, 1), 0);
    assert_eq!(scale_sci_exp(33, 4, 1), 32);
    assert_eq!(scale_sci_exp(-1, 4, 1), -4);
    assert_eq!(scale_sci_exp(-10, 4, 1), -12);
    assert_eq!(scale_sci_exp(33, 4, 2), 16);
    assert_eq!(scale_sci_exp(-10, 4, 2), -6);
    assert_eq!(scale_sci_exp(-7, 1, 1), -7);
}

#[test]
fn rounding_to_even() {
    let mut options = Options::from_radix(16);
    assert_eq!(truncate_and_round(0xff8, 0, 16, &options), (0xff8, 12));
    options.max_significant_digits = Some(2);
    assert_eq!(truncate_and_round(0xff8, 0, 16, &options), (0x1000, 13));
    assert_eq!(truncate_and_round(0xfe8, 0, 16, &options), (0xfe0, 12));
    assert_eq!(truncate_and_round(0xfe9, 0, 16, &options), (0xff0, 12));
    assert_eq!(truncate_and_round(0xfd8, 0, 16, &options), (0xfe0, 12));
    assert_eq!(truncate_and_round(0xfd7, 0, 16, &options), (0xfd0, 12));
    assert_eq!(truncate_and_round(0, 0, 16, &options), (0, 0));
    assert_eq!(truncate_and_round(0x1f, -1, 16, &options), (0x1f, 5));
    assert_eq!(truncate_and_round(0x1ff, -1, 16, &options), (0x200, 10));
}

#[test]
fn floats_are_written_the_same_twice() {
    let options = Options::from_radix(16);
    for value in [0.0f64, 1.0, -255.5, 1e10, 1e-10, f64::MAX, f64::from_bits(1)] {
        let mut first = [0u8; 1200];
        let count = Float64::from_bits(value.to_bits()).write_float::<HEX>(&mut first, &options);
        let mut second = first;
        let again = Float64::from_bits(value.to_bits()).write_float::<HEX>(&mut second, &options);
        assert_eq!(count, again);
        assert_eq!(first, second);
        let mut dirty = [0xffu8; 1200];
        Float64::from_bits(value.to_bits()).write_float::<HEX>(&mut dirty, &options);
        assert_eq!(&dirty[..count], &first[..count]);
        assert!(dirty[count..].iter().all(|&c| c == 0xff));
    }
    let decimal = Options::default();
    for value in [0.1f64, -2.5e300, 123456.789] {
        let mut first = [0u8; 1200];
        let count =
            Float64::from_bits(value.to_bits()).write_float::<STANDARD>(&mut first, &decimal);
        let mut second = first;
        Float64::from_bits(value.to_bits()).write_float::<STANDARD>(&mut second, &decimal);
        assert_eq!(first, second);
        assert!(first[count..].iter().all(|&c| c == 0));
    }
}

fn read_back<const FORMAT: u128>(text: &str, radix: u32) -> u64 {
    let options = ParseOptions::from_radix(radix);
    from_lexical_float::<Float64, FORMAT>(text.as_bytes(), &options).unwrap().bits
}

#[test]
fn floats_of_radices_that_are_powers_of_two_read_back() {
    let mut state = 0x0f1e_2d3c_4b5a_6978u64;
    let hex = Options::from_radix(16);
    let binary = Options::from_radix(2);
    let octal = Options::from_radix(8);
    let mut checked = 0;
    while checked < 100 {
        state ^= state << 13;
        state ^= state >> 7;
        state ^= state << 17;
        let value = f64::from_bits(state);
        if !value.is_finite() {
            continue;
        }
        assert_eq!(read_back::<HEX>(&write64::<HEX>(value, &hex), 16), state);
        assert_eq!(read_back::<BASE32_OVER_4>(&write64::<BASE32_OVER_4>(value, &hex), 16), state);
        assert_eq!(read_back::<BINARY>(&write64::<BINARY>(value, &binary), 2), state);
        assert_eq!(read_back::<OCTAL>(&write64::<OCTAL>(value, &octal), 8), state);
        checked += 1;
    }
    for value in [0.0f64, -0.0, 1.0, f64::MAX, f64::MIN_POSITIVE, f64::from_bits(1)] {
        assert_eq!(read_back::<HEX>(&write64::<HEX>(value, &hex), 16), value.to_bits());
        assert_eq!(read_back::<HEX_POSITIONAL>(&write64::<HEX_POSITIONAL>(value, &hex), 16), value.to_bits());
    }
}

#[test]
fn every_float_fits_in_the_size_given() {
    let mut options = Options::from_radix(2);
    let values = [
        0.0f64,
        -0.0,
        1.0,
        f64::MAX,
        -f64::MAX,
        f64::MIN_POSITIVE,
        f64::from_bits(1),
        -f64::from_bits(1),
        f64::from_bits(0x000f_ffff_ffff_ffff),
        1.0 / 3.0,
        f64::NAN,
        f64::NEG_INFINITY,
    ];
    let mut longest = 0;
    for min in [None, Some(1usize), Some(17), Some(300)] {
        options.min_significant_digits = min;
        let size = FLOAT_SIZE + min.unwrap_or(0);
        for value in values {
            let float = Float64::from_bits(value.to_bits());
            let mut bytes = vec![0u8; size];
            let binary = try_write_float::<_, BINARY_POSITIONAL>(float, &mut bytes, &options).unwrap();
            let ternary = try_write_float::<_, TERNARY>(float, &mut bytes, &options).unwrap();
            let decimal = try_write_float::<_, DECIMAL_POSITIONAL>(float, &mut bytes, &options).unwrap();
            let hex = try_write_float::<_, HEX_POSITIONAL>(float, &mut bytes, &options).unwrap();
            for count in [binary, ternary, decimal, hex] {
                assert!(count <= size);
                longest = longest.max(count);
            }
        }
    }
    // The smallest float in radix 2 has 1074 places behind the point.
    assert!(longest >= 1077);
    // A buffer that is one byte short takes nothing.
    let mut short = vec![7u8; FLOAT_SIZE - 1];
    let options = Options::default();
    assert_eq!(try_write_float::<_, STANDARD>(Float64::from_bits(0), &mut short, &options), None);
    assert!(short.iter().all(|&c| c == 7));
    let mut bytes = vec![0u8; FLOAT_SIZE];
    let count = try_write_float::<_, STANDARD>(Float64::from_bits(1.5f64.to_bits()), &mut bytes, &options);
    assert_eq!(count, Some(3));
    assert_eq!(&bytes[..3], b"1.5");
    // What cannot be written is not written.
    let mut none = Options::default();
    none.nan_string = None;
    let nan = Float64::from_bits(f64::NAN.to_bits());
    assert_eq!(try_write_float::<_, STANDARD>(nan, &mut bytes, &none), None);
    assert!(!can_write(nan.parts(), STANDARD, &none));
    assert!(can_write(nan.parts(), STANDARD, &options));
    assert!(!can_write(Float64::from_bits(0).parts(), 0, &options));
    assert!(!can_write(Float64::from_bits(0).parts(), MIXED, &options));
    assert!(can_write(Float64::from_bits(0).parts(), HEX, &options));
    let mut zero = Options::default();
    zero.max_significant_digits = Some(0);
    assert!(!can_write(Float64::from_bits(0).parts(), STANDARD, &zero));
    assert_eq!(try_write_float::<_, STANDARD>(Float64::from_bits(0), &mut bytes, &zero), None);
}
