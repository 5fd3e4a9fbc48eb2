//! The float writer for formats whose exponent raises the radix of the
//! mantissa, where that radix is no power of two: decimal floats first of
//! all. The digits written are the shortest that read back as the float.

use crate::bigint::{spec_order, Bigint, Order};
use crate::binary::{
    min_digits, spec_exponent_text, spec_fraction_text, spec_number_text, write_exponent,
    write_fraction, write_number,
};
use crate::buffer::{lemma_written_append, spec_written};
use crate::digit::{digit_to_char, spec_digit_to_char};
use crate::float::FloatParts;
use crate::format::{
    exponent_radix, has_flag, mantissa_radix, spec_exponent_base, spec_exponent_radix,
    spec_has_flag, spec_mantissa_radix, NO_EXPONENT_NOTATION, NO_EXPONENT_WITHOUT_FRACTION,
    REQUIRED_EXPONENT_NOTATION, REQUIRED_EXPONENT_SIGN,
};
use crate::hex::spec_uses_exponent;
use crate::options::Options;
use crate::shortest::{shortest_digits, spec_all_digits, spec_increment, spec_shortest};
use vstd::arithmetic::power::pow;
use vstd::prelude::*;

verus! {

/// The number that digits denote in `radix`, the digits given by their
/// values.
pub open spec fn spec_values(digits: Seq<u8>, radix: nat) -> nat
    decreases digits.len(),
{
    if digits.len() == 0 {
        0
    } else {
        spec_values(digits.drop_last(), radix) * radix + digits.last() as nat
    }
}

/// The characters of digits given by their values.
pub open spec fn spec_chars(digits: Seq<u8>) -> Seq<u8> {
    Seq::new(digits.len(), |i: int| spec_digit_to_char(digits[i] as int))
}

/// Digits rounded to at most `max` of them, and whether the rounding
/// carried beyond the first digit. What is cut off rounds the last digit
/// kept up where it is more than half a unit of that digit, or just half
/// of one behind an odd digit. Where all digits carry, the digits are a 1
/// before zeros and the number is one power of the radix higher.
pub open spec fn spec_round_digits(digits: Seq<u8>, max: Option<usize>, radix: nat) -> (
    Seq<u8>,
    bool,
) {
    match max {
        Some(max) => if 0 < max < digits.len() {
            let kept = digits.subrange(0, max as int);
            let cut = digits.subrange(max as int, digits.len() as int);
            let order = spec_order(
                (2 * spec_values(cut, radix)) as int,
                pow(radix as int, cut.len()),
            );
            if order == Order::Greater || (order == Order::Equal && kept.last() % 2 == 1) {
                let raised = spec_increment(kept, radix);
                if raised.len() > kept.len() {
                    (raised.drop_last(), true)
                } else {
                    (raised, false)
                }
            } else {
                (kept, false)
            }
        } else {
            (digits, false)
        },
        None => (digits, false),
    }
}

/// The text of a number given by its digits and its scientific exponent:
/// in scientific notation where the format asks for it or the exponent
/// lies beyond a break of the options, else with all its digits around
/// the point.
pub open spec fn spec_digits_text(
    digits: Seq<u8>,
    sci_exp: int,
    format: u128,
    options: Options,
) -> Seq<u8> {
    let min = options.spec_min_digits() as int;
    if spec_uses_exponent(sci_exp, format, options) {
        spec_number_text(
            digits,
            1,
            options.decimal_point,
            min,
            options.trim_floats && !spec_has_flag(format, NO_EXPONENT_WITHOUT_FRACTION),
        ) + spec_exponent_text(
            sci_exp,
            options.exponent,
            spec_has_flag(format, REQUIRED_EXPONENT_SIGN),
            spec_exponent_radix(format) as nat,
        )
    } else if sci_exp >= 0 {
        spec_number_text(digits, sci_exp + 1, options.decimal_point, min, options.trim_floats)
    } else {
        spec_fraction_text(digits, -sci_exp, options.decimal_point, min)
    }
}

/// The bits of a float that is not negative, from its fields.
pub open spec fn spec_bits(float: FloatParts) -> int {
    float.biased_exponent * float.kind.spec_hidden_bit() + float.fraction
}

/// The text of a finite float, without its sign: zero is `0`, and every
/// other float the shortest digits that read back as it, rounded to the
/// digits that the options allow.
pub open spec fn spec_float_text(float: FloatParts, format: u128, options: Options) -> Seq<u8> {
    let radix = spec_mantissa_radix(format) as nat;
    if spec_bits(float) == 0 {
        spec_digits_text(seq![48u8], 0, format, options)
    } else {
        let shortest = spec_shortest(spec_bits(float), float.kind, radix);
        let rounded = spec_round_digits(shortest.0, options.max_significant_digits, radix);
        spec_digits_text(
            spec_chars(rounded.0),
            shortest.1 - 1 + (if rounded.1 {
                1int
            } else {
                0int
            }),
            format,
            options,
        )
    }
}

/// Writes a number given by its digits and its scientific exponent at the
/// start of `bytes` and returns the length of the text.
pub fn write_digits_text<const FORMAT: u128>(
    digits: &[u8],
    sci_exp: i32,
    bytes: &mut [u8],
    options: &Options,
) -> (count: usize)
    requires
        digits@.len() >= 1,
        2 <= spec_exponent_radix(FORMAT) <= 36,
        i32::MIN < sci_exp < i32::MAX,
        old(bytes)@.len() >= spec_digits_text(digits@, sci_exp as int, FORMAT, *options).len(),
    ensures
        count == spec_digits_text(digits@, sci_exp as int, FORMAT, *options).len(),
        final(bytes)@ == spec_written(
            old(bytes)@,
            spec_digits_text(digits@, sci_exp as int, FORMAT, *options),
        ),
{
    let min = min_digits(options);
    let ghost before = bytes@;
    if !has_flag(FORMAT, NO_EXPONENT_NOTATION) && (has_flag(FORMAT, REQUIRED_EXPONENT_NOTATION)
        || sci_exp < options.negative_exponent_break || sci_exp
        > options.positive_exponent_break) {
        let trim = options.trim_floats && !has_flag(FORMAT, NO_EXPONENT_WITHOUT_FRACTION);
        let ghost number = spec_number_text(digits@, 1, options.decimal_point, min as int, trim);
        let ghost exponent = spec_exponent_text(
            sci_exp as int,
            options.exponent,
            spec_has_flag(FORMAT, REQUIRED_EXPONENT_SIGN),
            spec_exponent_radix(FORMAT) as nat,
        );
        let cursor = write_number(bytes, 0, digits, 1, options.decimal_point, min, trim);
        let end = write_exponent(
            bytes,
            cursor,
            sci_exp,
            options.exponent,
            has_flag(FORMAT, REQUIRED_EXPONENT_SIGN),
            exponent_radix(FORMAT),
        );
        proof {
            lemma_written_append(before, 0, number, exponent);
        }
        end
    } else if sci_exp >= 0 {
        write_number(
            bytes,
            0,
            digits,
            sci_exp as usize + 1,
            options.decimal_point,
            min,
            options.trim_floats,
        )
    } else {
        write_fraction(bytes, 0, digits, (-sci_exp) as usize, options.decimal_point, min)
    }
}

/// Rounds digits to at most `max` of them and tells whether the rounding
/// carried beyond the first digit.
pub fn round_digits(digits: Vec<u8>, max: Option<usize>, radix: u32) -> (r: (Vec<u8>, bool))
    requires
        2 <= radix <= 36,
    ensures
        r.0@ == spec_round_digits(digits@, max, radix as nat).0,
        r.1 == spec_round_digits(digits@, max, radix as nat).1,
        spec_all_digits(digits@, radix as nat) ==> spec_all_digits(r.0@, radix as nat),
        digits@.len() >= 1 ==> r.0@.len() >= 1,
{
    let max = match max {
        Some(max) => max,
        None => {
            return (digits, false);
        },
    };
    let count = digits.len();
    if max == 0 || max >= count {
        return (digits, false);
    }
    // The number that is cut off, and the unit of the last digit kept.
    let ghost cut = digits@.subrange(max as int, count as int);
    let mut tail = Bigint::zero();
    let mut i = max;
    assert(digits@.subrange(max as int, max as int) == Seq::<u8>::empty());
    while i < count
        invariant
            max <= i <= count,
            count == digits@.len(),
            2 <= radix <= 36,
            tail.spec_wf(),
            tail.spec_value() == spec_values(digits@.subrange(max as int, i as int), radix as nat),
        decreases count - i,
    {
        assert(digits@.subrange(max as int, i + 1).drop_last() == digits@.subrange(
            max as int,
            i as int,
        ));
        tail = tail.mul_scalar(radix as u64).add(&Bigint::from_u64(digits[i] as u64));
        i = i + 1;
    }
    assert(digits@.subrange(max as int, count as int) == cut);
    let unit = Bigint::from_u64(1).mul_pow(radix as u64, (count - max) as u128);
    assert(1 * pow(radix as int, cut.len()) == pow(radix as int, cut.len()));
    let order = tail.mul_scalar(2).compare(&unit);
    let mut kept = digits;
    kept.truncate(max);
    assert(kept@ == digits@.subrange(0, max as int));
    let odd = kept[max - 1] % 2 == 1;
    if order == Order::Greater || (order == Order::Equal && odd) {
        let mut raised = crate::shortest::increment_digits(kept, radix);
        if raised.len() > max {
            raised.pop();
            (raised, true)
        } else {
            (raised, false)
        }
    } else {
        (kept, false)
    }
}

/// The characters of digits given by their values.
pub fn digit_chars(digits: &Vec<u8>, radix: u32) -> (chars: Vec<u8>)
    requires
        2 <= radix <= 36,
        spec_all_digits(digits@, radix as nat),
    ensures
        chars@ == spec_chars(digits@),
{
    let mut chars: Vec<u8> = Vec::new();
    let count = digits.len();
    let mut i: usize = 0;
    while i < count
        invariant
            i <= count,
            count == digits@.len(),
            2 <= radix <= 36,
            spec_all_digits(digits@, radix as nat),
            chars@ == spec_chars(digits@.subrange(0, i as int)),
        decreases count - i,
    {
        chars.push(digit_to_char(digits[i] as u32));
        i = i + 1;
        assert(chars@ == spec_chars(digits@.subrange(0, i as int)));
    }
    assert(digits@.subrange(0, count as int) == digits@);
    chars
}

/// Writes a finite float that is not negative at the start of `bytes`,
/// by the shortest digits that read back as it, and returns the length of
/// the text.
pub fn write_float<const FORMAT: u128>(float: FloatParts, bytes: &mut [u8], options: &Options) -> (count:
    usize)
    requires
        float.spec_wf(),
        !float.spec_is_special(),
        !float.negative,
        2 <= spec_mantissa_radix(FORMAT) <= 36,
        spec_exponent_base(FORMAT) == spec_mantissa_radix(FORMAT),
        2 <= spec_exponent_radix(FORMAT) <= 36,
        old(bytes)@.len() >= spec_float_text(float, FORMAT, *options).len(),
    ensures
        count == spec_float_text(float, FORMAT, *options).len(),
        final(bytes)@ == spec_written(old(bytes)@, spec_float_text(float, FORMAT, *options)),
{
    let radix = mantissa_radix(FORMAT);
    let hidden = float.kind.hidden_bit();
    assert(float.biased_exponent * hidden + float.fraction < float.kind.spec_inf_bits())
        by (nonlinear_arith)
        requires
            float.biased_exponent < float.kind.spec_max_exponent(),
            float.fraction < hidden,
            hidden == float.kind.spec_hidden_bit(),
            float.kind.spec_inf_bits() == float.kind.spec_max_exponent() * hidden,
            hidden > 0,
    ;
    assert(float.kind.spec_inf_bits() <= 0x7ff0_0000_0000_0000);
    assert(float.biased_exponent * hidden >= 0) by (nonlinear_arith)
        requires
            hidden > 0,
    ;
    let bits = float.biased_exponent as u64 * hidden + float.fraction;
    if bits == 0 {
        let zero: [u8; 1] = [48u8];
        assert(zero@ == seq![48u8]);
        return write_digits_text::<FORMAT>(zero.as_slice(), 0, bytes, options);
    }
    let (digits, point) = shortest_digits(bits, float.kind, radix);
    let (rounded, carried) = round_digits(digits, options.max_significant_digits, radix);
    let chars = digit_chars(&rounded, radix);
    let sci_exp = if carried {
        point
    } else {
        point - 1
    };
    write_digits_text::<FORMAT>(chars.as_slice(), sci_exp, bytes, options)
}

} // verus!
