//! Writing a float: its sign, then NaN or infinity by their literals, or
//! the digits by the writer that the format's radix and exponent base
//! select.

use crate::binary;
use crate::decimal;
use crate::buffer::{
    copy_to_dst, lemma_written_append, lemma_written_behind, lemma_written_nothing,
    lemma_written_push, spec_written, spec_written_at,
};
use crate::float::{Float32, Float64, FloatParts, RawFloat};
use crate::format::{
    exponent_base, has_flag, is_valid, mantissa_radix, spec_exponent_base, spec_is_valid,
    spec_mantissa_radix, spec_sign_text, REQUIRED_MANTISSA_SIGN,
};
use crate::hex;
use crate::options::Options;
use crate::size::{lemma_float_text_fits, FLOAT_SIZE};
use vstd::prelude::*;

verus! {

/// Writes the literal of a special value at the start of `bytes` and
/// returns its length.
pub fn write_special(bytes: &mut [u8], special: Option<&[u8]>) -> (count: usize)
    requires
        special is Some,
        special->0@.len() <= old(bytes)@.len(),
    ensures
        count == special->0@.len(),
        final(bytes)@ == spec_written(old(bytes)@, special->0@),
{
    match special {
        Some(special_str) => copy_to_dst(bytes, 0, special_str),
        None => 0,
    }
}

/// Writes the literal of NaN at the start of `bytes` and returns its
/// length added to `count`.
pub fn write_nan(bytes: &mut [u8], options: &Options, count: usize) -> (total: usize)
    requires
        options.nan_string is Some,
        options.nan_string->0@.len() <= old(bytes)@.len(),
        count + options.nan_string->0@.len() <= usize::MAX,
    ensures
        total == count + options.nan_string->0@.len(),
        final(bytes)@ == spec_written(old(bytes)@, options.nan_string->0@),
{
    count + write_special(bytes, options.nan_string)
}

/// Writes the literal of infinity at the start of `bytes` and returns its
/// length added to `count`.
pub fn write_inf(bytes: &mut [u8], options: &Options, count: usize) -> (total: usize)
    requires
        options.inf_string is Some,
        options.inf_string->0@.len() <= old(bytes)@.len(),
        count + options.inf_string->0@.len() <= usize::MAX,
    ensures
        total == count + options.inf_string->0@.len(),
        final(bytes)@ == spec_written(old(bytes)@, options.inf_string->0@),
{
    count + write_special(bytes, options.inf_string)
}

/// The writers of finite floats.
#[derive(Clone, Copy, PartialEq, Eq, Structural, Debug)]
pub enum Backend {
    /// Radix 10.
    Decimal,
    /// A radix that is a power of two, raised by the exponent.
    Binary,
    /// A radix that is a power of the exponent base and above it.
    Hex,
    /// Any other radix.
    Radix,
}

/// The writer that a format selects: the decimal one for radix 10, the
/// binary one where the exponent raises a radix of 2, 4, 8, 16 or 32, the
/// hexadecimal one for such a radix over a base that it is a power of, and
/// the general one for everything else.
pub open spec fn spec_backend(format: u128) -> Backend {
    let radix = spec_mantissa_radix(format);
    let base = spec_exponent_base(format);
    if radix == 10 {
        Backend::Decimal
    } else if radix == base && binary::spec_is_power_of_two_radix(radix) {
        Backend::Binary
    } else if hex::spec_is_hex_format(format) {
        Backend::Hex
    } else {
        Backend::Radix
    }
}

/// Selects the writer of a format.
pub fn backend(format: u128) -> (selected: Backend)
    ensures
        selected == spec_backend(format),
{
    let radix = mantissa_radix(format);
    let base = exponent_base(format);
    if radix == 10 {
        Backend::Decimal
    } else if radix == base && (radix == 2 || radix == 4 || radix == 8 || radix == 16 || radix
        == 32) {
        Backend::Binary
    } else if ((radix == 4 || radix == 8 || radix == 16 || radix == 32) && base == 2) || (radix
        == 16 && base == 4) {
        Backend::Hex
    } else {
        Backend::Radix
    }
}

/// What a float is written as behind its sign: the literal of NaN or of
/// infinity, or its digits.
pub open spec fn spec_body_text(float: FloatParts, format: u128, options: Options) -> Seq<u8> {
    if float.spec_is_nan() {
        options.nan_string->0@
    } else if float.spec_is_inf() {
        options.inf_string->0@
    } else if spec_backend(format) == Backend::Binary || spec_backend(format) == Backend::Hex {
        hex::spec_float_text(float.spec_mantissa() as nat, float.spec_exponent(), format, options)
    } else {
        decimal::spec_float_text(FloatParts { negative: false, ..float }, format, options)
    }
}

/// The text of a float.
pub open spec fn spec_text(float: FloatParts, format: u128, options: Options) -> Seq<u8> {
    spec_sign_text(float.negative, format) + spec_body_text(float, format, options)
}

/// Whether a float can be written in a format with these options: the
/// format is valid, NaN and infinity have their literal, and for a finite
/// float the exponent raises the radix of the mantissa or a base that the
/// radix is a power of, and the limit on the digits, if any, is above
/// zero.
pub open spec fn spec_can_write(float: FloatParts, format: u128, options: Options) -> bool {
    &&& spec_is_valid(format)
    &&& float.spec_is_nan() ==> options.nan_string is Some
    &&& float.spec_is_inf() ==> options.inf_string is Some
    &&& !float.spec_is_special() ==> {
        &&& spec_backend(format) == Backend::Hex || spec_exponent_base(format)
            == spec_mantissa_radix(format)
        &&& options.max_significant_digits matches Some(max) ==> max > 0
    }
}

/// A float that can be written as text.
pub trait WriteFloat: RawFloat {
    /// Writes this float at the start of `bytes` and returns the length of
    /// the text. The bytes behind the text stay as they were.
    fn write_float<const FORMAT: u128>(self, bytes: &mut [u8], options: &Options) -> (count: usize)
        requires
            spec_can_write(self.spec_parts(), FORMAT, *options),
            old(bytes)@.len() >= spec_text(self.spec_parts(), FORMAT, *options).len(),
        ensures
            count == spec_text(self.spec_parts(), FORMAT, *options).len(),
            final(bytes)@ == spec_written(old(bytes)@, spec_text(self.spec_parts(), FORMAT, *options)),
    {
        let parts = self.parts();
        let ghost before = bytes@;
        let ghost sign = spec_sign_text(parts.negative, FORMAT);
        let ghost body = spec_body_text(parts, FORMAT, *options);
        let len = bytes.len();
        proof {
            lemma_written_nothing(before, 0);
        }
        let start: usize = if parts.negative {
            proof {
                lemma_written_push(before, 0, Seq::empty(), 45);
                assert(Seq::<u8>::empty().push(45u8) == sign);
            }
            bytes[0] = 45;
            1
        } else if has_flag(FORMAT, REQUIRED_MANTISSA_SIGN) {
            proof {
                lemma_written_push(before, 0, Seq::empty(), 43);
                assert(Seq::<u8>::empty().push(43u8) == sign);
            }
            bytes[0] = 43;
            1
        } else {
            0
        };
        let ghost signed = bytes@;
        assert(signed == spec_written_at(before, 0, sign));
        let float = FloatParts { negative: false, ..parts };
        let (head, rest) = bytes.split_at_mut(start);
        let ghost tail = rest@;
        let written = if !parts.is_special() {
            match backend(FORMAT) {
                Backend::Binary => binary::write_float::<FORMAT>(float, rest, options),
                Backend::Hex => hex::write_float::<FORMAT>(float, rest, options),
                _ => decimal::write_float::<FORMAT>(float, rest, options),
            }
        } else if parts.is_nan() {
            write_nan(rest, options, 0)
        } else {
            write_inf(rest, options, 0)
        };
        proof {
            assert(tail == signed.subrange(start as int, len as int));
            assert(head@ == signed.subrange(0, start as int));
            lemma_written_behind(signed, start as int, body);
            lemma_written_append(before, 0, sign, body);
        }
        start + written
    }
}

impl WriteFloat for Float32 {

}

impl WriteFloat for Float64 {

}

/// Tells whether a float can be written in a format with these options.
pub fn can_write(float: FloatParts, format: u128, options: &Options) -> (able: bool)
    requires
        float.spec_wf(),
    ensures
        able == spec_can_write(float, format, *options),
{
    if !is_valid(format) {
        false
    } else if float.is_nan() {
        options.nan_string.is_some()
    } else if float.is_inf() {
        options.inf_string.is_some()
    } else {
        let reachable = match backend(format) {
            Backend::Hex => true,
            _ => exponent_base(format) == mantissa_radix(format),
        };
        let limited = match options.max_significant_digits {
            Some(max) => max > 0,
            None => true,
        };
        reachable && limited
    }
}

/// Writes a float at the start of `bytes` and returns the length of the
/// text, where the float can be written in the format with valid options
/// and `bytes` is long enough for every float: `FLOAT_SIZE` bytes and the
/// digits that the options ask for. Nothing is written otherwise.
pub fn try_write_float<F: WriteFloat, const FORMAT: u128>(
    float: F,
    bytes: &mut [u8],
    options: &Options,
) -> (count: Option<usize>)
    ensures
        count is Some <==> {
            &&& spec_can_write(float.spec_parts(), FORMAT, *options)
            &&& options.spec_is_valid()
            &&& old(bytes)@.len() >= FLOAT_SIZE + options.spec_min_digits()
        },
        count matches Some(length) ==> length == spec_text(
            float.spec_parts(),
            FORMAT,
            *options,
        ).len() && final(bytes)@ == spec_written(
            old(bytes)@,
            spec_text(float.spec_parts(), FORMAT, *options),
        ),
        count is None ==> final(bytes)@ == old(bytes)@,
{
    let parts = float.parts();
    let length = bytes.len();
    if !options.is_valid() || !can_write(parts, FORMAT, options) {
        return None;
    }
    let needed = match FLOAT_SIZE.checked_add(crate::binary::min_digits(options)) {
        Some(needed) => needed,
        None => {
            return None;
        },
    };
    if length < needed {
        return None;
    }
    proof {
        lemma_float_text_fits(parts, FORMAT, *options);
    }
    Some(float.write_float::<FORMAT>(bytes, options))
}

} // verus!
