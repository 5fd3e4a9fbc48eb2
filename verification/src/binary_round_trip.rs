//! Floats that are written in a radix that is a power of two read back as
//! themselves: their digits denote them exactly.

use crate::binary::{
    lemma_bit_length, lemma_log2_of_radix, spec_bit_length, spec_ceildiv,
    spec_is_power_of_two_radix, spec_log2, spec_shl,
};
use crate::binary::spec_aligned_digits;
use crate::compact::{lemma_digits_shape, lemma_digits_value, lemma_quotient_smaller, spec_digits};
use crate::decimal::spec_bits;
use crate::digit::spec_char_is_digit;
use crate::digits_text::{
    lemma_fraction_text_parts, lemma_number_text_parts, spec_accumulate, spec_all_chars,
};
use crate::error::Error;
use crate::float::{FloatKind, FloatParts};
use crate::float_round_trip::{
    lemma_bits_below_infinity, lemma_lexed_is_parsed, lemma_negative_text_read, lemma_plain_form,
    lemma_positive_text_read, lemma_scientific_text_read, lemma_signed_text_lexed,
    lemma_value_is_accumulated, spec_reads_as_written,
};
use crate::format::{spec_exponent_base, spec_has_flag, spec_mantissa_radix, spec_sign_text};
use crate::lex::{spec_number, Lexeme};
use crate::options::{Options, ParseOptions};
use crate::write::{spec_backend, spec_text, Backend};
use crate::nearest::{lemma_scaled_step, spec_is_nearest, spec_scaled};
use crate::parse_float::{
    lemma_denominator_positive, lemma_rounded_is_nearest, lemma_zero_rounds_to_zero,
    spec_denominator, spec_numerator,
    spec_positive_part, spec_rounded, spec_unit_shift,
};
use vstd::arithmetic::div_mod::{lemma_fundamental_div_mod, lemma_fundamental_div_mod_converse};
use vstd::arithmetic::power::{
    lemma_pow0, lemma_pow1, lemma_pow_adds, lemma_pow_multiplies, lemma_pow_positive, pow,
};
use vstd::arithmetic::power2::{
    lemma2_to64, lemma_pow2, lemma_pow2_adds, lemma_pow2_pos, lemma_pow2_strictly_increases, pow2,
};
use vstd::prelude::*;

verus! {

/// A float is the float nearest to itself: to the ratio of any multiple
/// of it, in the unit of the smallest float, and the factor.
pub proof fn lemma_exact_is_nearest(bits: int, factor: int, kind: FloatKind)
    requires
        0 <= bits < kind.spec_inf_bits(),
        factor > 0,
    ensures
        spec_is_nearest(bits, spec_scaled(bits, kind) * factor, factor, kind),
{
    let here = spec_scaled(bits, kind);
    let above = spec_scaled(bits + 1, kind);
    lemma_scaled_step(bits, kind);
    assert(2 * (here * factor) < (here + above) * factor) by (nonlinear_arith)
        requires
            here < above,
            factor > 0,
    ;
    if bits > 0 {
        let below = spec_scaled(bits - 1, kind);
        lemma_scaled_step(bits - 1, kind);
        assert((below + here) * factor < 2 * (here * factor)) by (nonlinear_arith)
            requires
                below < here,
                factor > 0,
        ;
    }
}

/// A finite float, in the unit of the smallest float, is its mantissa
/// times the power of two of its exponent above the smallest one.
pub proof fn lemma_float_scaled(float: FloatParts)
    requires
        float.spec_wf(),
        !float.spec_is_special(),
    ensures
        float.spec_exponent() + spec_unit_shift(float.kind) >= 0,
        spec_scaled(crate::decimal::spec_bits(float), float.kind) == float.spec_mantissa() * pow2(
            (float.spec_exponent() + spec_unit_shift(float.kind)) as nat,
        ),
{
    let hidden = float.kind.spec_hidden_bit();
    let bits = crate::decimal::spec_bits(float);
    assert(bits == hidden * float.biased_exponent + float.fraction) by (nonlinear_arith)
        requires
            bits == float.biased_exponent * hidden + float.fraction,
    ;
    lemma_fundamental_div_mod_converse(
        bits,
        hidden,
        float.biased_exponent as int,
        float.fraction as int,
    );
}

/// Both sides of an equation between multiples of powers of two can be
/// scaled by powers whose exponents add up to the same.
pub proof fn lemma_power_products(m: int, r: int, x: nat, y: nat, z: nat, w: nat)
    requires
        r * pow2(z) == m * pow2(w),
        x + z == y + w,
    ensures
        m * pow2(x) == r * pow2(y),
{
    lemma_pow2_adds(x, z);
    lemma_pow2_adds(y, w);
    lemma_pow2_pos(z);
    let px = pow2(x) as int;
    let py = pow2(y) as int;
    let pz = pow2(z) as int;
    let pw = pow2(w) as int;
    assert((m * px) * pz == (r * py) * pz) by (nonlinear_arith)
        requires
            r * pz == m * pw,
            px * pz == py * pw,
    ;
    assert(m * px == r * py) by (nonlinear_arith)
        requires
            (m * px) * pz == (r * py) * pz,
            pz > 0,
    ;
}

/// A power of a power of two is a power of two.
pub proof fn lemma_pow_of_pow2(bits: nat, count: nat)
    ensures
        bits * count >= 0,
        pow(pow2(bits) as int, count) == pow2(bits * count),
{
    lemma_pow2(bits);
    lemma_pow_multiplies(2, bits, count);
    lemma_pow2(bits * count);
}

/// A value above zero lies between the power of the radix below the
/// count of its digits and the power of that count.
pub proof fn lemma_digits_bounds(value: nat, radix: nat)
    requires
        value > 0,
        2 <= radix,
    ensures
        spec_digits(value, radix).len() >= 1,
        pow(radix as int, (spec_digits(value, radix).len() - 1) as nat) <= value < pow(
            radix as int,
            spec_digits(value, radix).len(),
        ),
    decreases value,
{
    let r = radix as int;
    if value < radix {
        lemma_pow0(r);
        lemma_pow1(r);
    } else {
        let high = value / radix;
        let last = (value % radix) as int;
        lemma_quotient_smaller(value, radix);
        lemma_digits_bounds(high, radix);
        let count = spec_digits(high, radix).len();
        lemma_fundamental_div_mod(value as int, r);
        lemma_pow_adds(r, 1, (count - 1) as nat);
        lemma_pow_adds(r, 1, count);
        lemma_pow1(r);
        let low = pow(r, (count - 1) as nat);
        let top = pow(r, count);
        assert(r * low <= value) by (nonlinear_arith)
            requires
                low <= high,
                value == r * high + last,
                0 <= last,
                r >= 2,
        ;
        assert(value < r * top) by (nonlinear_arith)
            requires
                high < top,
                value == r * high + last,
                last < r,
                r >= 2,
        ;
    }
}

/// Where the digits of a mantissa above zero, shifted up until the
/// exponent left is a whole number of digits, are counted, the whole
/// digits in the scientific exponent are those in the exponent left and
/// those of the mantissa but the first.
pub proof fn lemma_digit_exponent(mantissa: nat, exp: int, bits_per_digit: nat)
    requires
        mantissa > 0,
        1 <= bits_per_digit <= 5,
    ensures
        ({
            let radix = pow2(bits_per_digit);
            let shl = spec_shl(exp, bits_per_digit as int);
            let count = spec_digits(mantissa * pow2(shl as nat), radix).len();
            let sci_exp = exp + spec_bit_length(mantissa) - 1;
            &&& 0 <= shl < bits_per_digit
            &&& count >= 1
            &&& bits_per_digit * (sci_exp / (bits_per_digit as int)) == exp - shl + bits_per_digit
                * (count - 1)
            &&& spec_ceildiv(-sci_exp, bits_per_digit as int) == -(sci_exp / (
            bits_per_digit as int))
        }),
{
    let b = bits_per_digit as int;
    let radix = pow2(bits_per_digit);
    let shl = spec_shl(exp, b);
    let length = spec_bit_length(mantissa) as int;
    let sci_exp = exp + length - 1;
    lemma2_to64();
    lemma_fundamental_div_mod(exp, b);
    let value = mantissa * pow2(shl as nat);
    lemma_pow2_pos(shl as nat);
    assert(value > 0) by (nonlinear_arith)
        requires
            value == mantissa * pow2(shl as nat),
            mantissa > 0,
            pow2(shl as nat) > 0,
    ;
    assert(radix >= 2) by {
        lemma_pow2_strictly_increases(0, bits_per_digit);
    }
    lemma_digits_bounds(value, radix);
    let count = spec_digits(value, radix).len() as int;
    lemma_pow_of_pow2(bits_per_digit, (count - 1) as nat);
    lemma_pow_of_pow2(bits_per_digit, count as nat);
    // The bits of the shifted mantissa.
    lemma_bit_length(mantissa);
    lemma_pow2_adds((length - 1) as nat, shl as nat);
    lemma_pow2_adds(length as nat, shl as nat);
    let low = pow2((length - 1) as nat);
    let high = pow2(length as nat);
    let scale = pow2(shl as nat);
    assert(low * scale <= value < high * scale) by (nonlinear_arith)
        requires
            low <= mantissa < high,
            value == mantissa * scale,
            scale > 0,
    ;
    let below = bits_per_digit * (count - 1) as nat;
    let above = bits_per_digit * count as nat;
    assert(b * (count - 1) >= 0 && b * count >= 0) by (nonlinear_arith)
        requires
            b >= 1,
            count >= 1,
    ;
    if below >= length + shl {
        if below > length + shl {
            lemma_pow2_strictly_increases((length + shl) as nat, below as nat);
        }
    }
    assert(b * (count - 1) < length + shl);
    if length - 1 + shl >= above {
        if length - 1 + shl > above {
            lemma_pow2_strictly_increases(above as nat, (length - 1 + shl) as nat);
        }
    }
    assert(length - 1 + shl < b * count);
    let rest = length - 1 + shl - b * (count - 1);
    assert(0 <= rest < b) by (nonlinear_arith)
        requires
            rest == length - 1 + shl - b * (count - 1),
            b * (count - 1) < length + shl,
            length - 1 + shl < b * count,
    ;
    let whole = exp / b + count - 1;
    assert(sci_exp == b * whole + rest) by (nonlinear_arith)
        requires
            sci_exp == exp + length - 1,
            exp == b * (exp / b) + shl,
            rest == length - 1 + shl - b * (count - 1),
            whole == exp / b + count - 1,
    ;
    lemma_fundamental_div_mod_converse(sci_exp, b, whole, rest);
    assert(b * whole == exp - shl + b * (count - 1)) by (nonlinear_arith)
        requires
            exp == b * (exp / b) + shl,
            whole == exp / b + count - 1,
    ;
    assert(-sci_exp + (b - 1) == b * (-whole) + (b - 1 - rest)) by (nonlinear_arith)
        requires
            sci_exp == b * whole + rest,
    ;
    lemma_fundamental_div_mod_converse(-sci_exp + (b - 1), b, -whole, b - 1 - rest);
}

/// The digits of a mantissa, shifted up until the exponent left is a
/// whole number of digits, are digits of the radix that denote the
/// shifted mantissa.
pub proof fn lemma_aligned_chars(mantissa: nat, exp: int, radix: u32)
    requires
        spec_is_power_of_two_radix(radix),
    ensures
        spec_aligned_digits(mantissa, exp, radix).len() >= 1,
        spec_all_chars(spec_aligned_digits(mantissa, exp, radix), radix as nat),
        spec_accumulate(0, spec_aligned_digits(mantissa, exp, radix), radix as nat) == mantissa
            * pow2(spec_shl(exp, spec_log2(radix as nat) as int) as nat),
        0 <= spec_shl(exp, spec_log2(radix as nat) as int) < spec_log2(radix as nat),
{
    lemma_log2_of_radix(radix);
    let bits = spec_log2(radix as nat);
    let shl = spec_shl(exp, bits as int);
    lemma_fundamental_div_mod(exp, bits as int);
    let value = mantissa * pow2(shl as nat);
    lemma_pow2_pos(shl as nat);
    assert(mantissa * pow2(shl as nat) >= 0) by (nonlinear_arith)
        requires
            mantissa >= 0,
            pow2(shl as nat) > 0,
    ;
    lemma_digits_shape(value as nat, radix as nat);
    lemma_digits_value(value as nat, radix as nat);
    lemma_value_is_accumulated(spec_digits(value as nat, radix as nat), radix as nat);
}

/// A number that is read, and that is the float that was written, rounds
/// to that float.
pub proof fn lemma_read_exactly(
    float: FloatParts,
    mantissa: nat,
    fraction_digits: nat,
    exponent: int,
    radix_bits: nat,
    base_bits: nat,
)
    requires
        float.spec_wf(),
        !float.spec_is_special(),
        1 <= radix_bits <= 5,
        1 <= base_bits <= 5,
        float.spec_mantissa() * pow2(
            (float.spec_exponent() + spec_unit_shift(float.kind) + radix_bits * fraction_digits
                + base_bits * spec_positive_part(-exponent)) as nat,
        ) == mantissa * pow2(
            (base_bits * spec_positive_part(exponent) + spec_unit_shift(float.kind)) as nat,
        ),
    ensures
        spec_rounded(
            mantissa,
            fraction_digits,
            exponent,
            pow2(radix_bits) as int,
            pow2(base_bits) as int,
            float.kind,
        ) == spec_bits(float),
{
    let kind = float.kind;
    let bits = spec_bits(float);
    let radix = pow2(radix_bits) as int;
    let base = pow2(base_bits) as int;
    let unit = spec_unit_shift(kind);
    let up = spec_positive_part(exponent);
    let down = spec_positive_part(-exponent);
    let m = float.spec_mantissa();
    lemma_bits_below_infinity(float);
    lemma_float_scaled(float);
    lemma_pow2_pos(radix_bits);
    lemma_pow2_pos(base_bits);
    lemma_pow_of_pow2(radix_bits, fraction_digits);
    lemma_pow_of_pow2(base_bits, up);
    lemma_pow_of_pow2(base_bits, down);
    let num = spec_numerator(mantissa, exponent, base, kind);
    let den = spec_denominator(fraction_digits, exponent, radix, base);
    lemma_denominator_positive(fraction_digits, exponent, radix, base);
    let shift = (float.spec_exponent() + unit) as nat;
    let behind = radix_bits * fraction_digits;
    let below = base_bits * down;
    let above = base_bits * up;
    lemma_pow2_adds(behind, below);
    lemma_pow2_adds(shift, behind + below);
    lemma_pow2_adds(above, unit);
    let scaled = spec_scaled(bits, kind);
    assert(scaled * den == m * pow2(shift + behind + below)) by (nonlinear_arith)
        requires
            scaled == m * pow2(shift),
            den == pow2(behind) * pow2(below),
            pow2(shift + behind + below) == pow2(shift) * (pow2(behind) * pow2(below)),
    ;
    assert(num == mantissa * pow2(above + unit)) by (nonlinear_arith)
        requires
            num == mantissa * pow2(above) * pow2(unit),
            pow2(above + unit) == pow2(above) * pow2(unit),
    ;
    lemma_exact_is_nearest(bits, den, kind);
    lemma_rounded_is_nearest(mantissa, fraction_digits, exponent, radix, base, kind);
}

/// Whether a format is written by the digits of the mantissa itself: its
/// radix is 2, 4, 8, 16 or 32 and its exponent raises that radix, or 2
/// under a radix above 2, or 4 under radix 16.
pub open spec fn spec_is_exact_format(format: u128) -> bool {
    spec_backend(format) == Backend::Binary || spec_backend(format) == Backend::Hex
}

/// The bits of the radix of such a format are a whole multiple of the
/// bits of its exponent base.
pub proof fn lemma_exact_format(format: u128)
    requires
        spec_is_exact_format(format),
    ensures
        spec_is_power_of_two_radix(spec_mantissa_radix(format)),
        spec_is_power_of_two_radix(spec_exponent_base(format)),
        1 <= spec_log2(spec_exponent_base(format) as nat) <= spec_log2(
            spec_mantissa_radix(format) as nat,
        ) <= 5,
        spec_log2(spec_mantissa_radix(format) as nat) % spec_log2(
            spec_exponent_base(format) as nat,
        ) == 0,
        pow2(spec_log2(spec_mantissa_radix(format) as nat)) == spec_mantissa_radix(format),
        pow2(spec_log2(spec_exponent_base(format) as nat)) == spec_exponent_base(format),
{
    let radix = spec_mantissa_radix(format);
    let base = spec_exponent_base(format);
    lemma_log2_of_radix(radix);
    lemma_log2_of_radix(base);
    let b = spec_log2(radix as nat) as int;
    let c = spec_log2(base as nat) as int;
    if radix == base {
        vstd::arithmetic::div_mod::lemma_mod_self_0(b);
    } else if base == 2 {
        assert(c == 1);
        assert(b % 1 == 0);
    } else {
        assert(b == 4 && c == 2);
        assert(4int % 2 == 0);
    }
}

/// What the digits of a float above zero are read as where they were
/// written behind the bytes `pre`: a number that is the float.
pub proof fn lemma_exact_digits_read(
    pre: Seq<u8>,
    float: FloatParts,
    format: u128,
    write: Options,
    read: ParseOptions,
) -> (r: (nat, nat, int))
    requires
        float.spec_wf(),
        !float.spec_is_special(),
        float.spec_mantissa() > 0,
        spec_reads_as_written(format, write, read),
        spec_is_exact_format(format),
    ensures
        spec_number(
            pre + crate::hex::spec_float_text(
                float.spec_mantissa() as nat,
                float.spec_exponent(),
                format,
                write,
            ),
            format,
            read,
            pre.len() as int,
        ) == Ok::<(Lexeme, int), Error>(
            (
                Lexeme::Number { mantissa: r.0, fraction_digits: r.1, exponent: r.2 },
                (pre + crate::hex::spec_float_text(
                    float.spec_mantissa() as nat,
                    float.spec_exponent(),
                    format,
                    write,
                )).len() as int,
            ),
        ),
        spec_rounded(
            r.0,
            r.1,
            r.2,
            spec_mantissa_radix(format) as int,
            spec_exponent_base(format) as int,
            float.kind,
        ) == spec_bits(float),
        r.0 > 0,
        spec_char_is_digit(
            crate::hex::spec_float_text(
                float.spec_mantissa() as nat,
                float.spec_exponent(),
                format,
                write,
            )[0],
            spec_mantissa_radix(format) as int,
        ),
        crate::hex::spec_float_text(
            float.spec_mantissa() as nat,
            float.spec_exponent(),
            format,
            write,
        ).len() >= 1,
{
    let radix = spec_mantissa_radix(format);
    let mantissa = float.spec_mantissa() as nat;
    let exp = float.spec_exponent();
    let b = spec_log2(radix as nat);
    let c = spec_log2(spec_exponent_base(format) as nat);
    let unit = spec_unit_shift(float.kind);
    lemma_exact_format(format);
    lemma_float_scaled(float);
    lemma_aligned_chars(mantissa, exp, radix);
    lemma_digit_exponent(mantissa, exp, b);
    let chars = spec_aligned_digits(mantissa, exp, radix);
    let count = chars.len();
    let shl = spec_shl(exp, b as int) as nat;
    let sci_exp = crate::hex::spec_sci_exp(mantissa, exp);
    let whole = sci_exp / (b as int);
    let min = write.spec_min_digits() as int;
    let value = spec_accumulate(0, chars, radix as nat) as int;
    lemma_pow2_pos(shl);
    assert(b * whole == exp - shl + b * (count - 1));
    assert(b * (count - 1) == b * count - b) by (nonlinear_arith);
    if crate::hex::spec_uses_exponent(sci_exp, format, write) {
        let exponent = crate::hex::spec_scale_sci_exp(sci_exp, b as int, c as int);
        crate::hex::lemma_scale_sci_exp(sci_exp, b as int, c as int);
        let trim = write.trim_floats && !spec_has_flag(
            format,
            crate::format::NO_EXPONENT_WITHOUT_FRACTION,
        );
        lemma_number_text_parts(chars, 1, write.decimal_point, min, trim);
        let found = lemma_scientific_text_read(pre, chars, exponent, format, write, read);
        lemma_pow_of_pow2(b, count);
        lemma_pow_of_pow2(b, 1 + found.1);
        lemma_fundamental_div_mod(b as int, c as int);
        assert(c * exponent == b * whole) by (nonlinear_arith)
            requires
                exponent == whole * (b as int / c as int),
                b == c * (b as int / c as int),
        ;
        let up = spec_positive_part(exponent);
        let down = spec_positive_part(-exponent);
        assert(c * up - c * down == c * exponent) by (nonlinear_arith)
            requires
                up - down == exponent,
        ;
        assert(c * up >= 0 && c * down >= 0 && b * found.1 >= 0 && b * count >= 0)
            by (nonlinear_arith)
            requires
                c >= 0,
                b >= 0,
                up >= 0,
                down >= 0,
                found.1 >= 0,
                count >= 0,
        ;
        assert(b * (1 + found.1) == b + b * found.1) by (nonlinear_arith);
        lemma_scaled_digits(found.0 as int, mantissa as int, shl, b * count, b * (1 + found.1));
        lemma_power_products(
            mantissa as int,
            found.0 as int,
            (exp + unit + b * found.1 + c * down) as nat,
            (c * up + unit) as nat,
            b * count,
            shl + b * (1 + found.1),
        );
        lemma_read_exactly(float, found.0, found.1, exponent, b, c);
        lemma_read_above_zero(found.0 as int, mantissa as int, b * count, shl + b * (1 + found.1));
        (found.0, found.1, exponent)
    } else if sci_exp >= 0 {
        let leading = whole + 1;
        assert(whole >= 0) by (nonlinear_arith)
            requires
                sci_exp >= 0,
                b >= 1,
                whole == sci_exp / (b as int),
        ;
        lemma_plain_form(sci_exp, format, write);
        lemma_number_text_parts(chars, leading, write.decimal_point, min, write.trim_floats);
        let found = lemma_positive_text_read(pre, chars, leading, format, write, read);
        lemma_pow_of_pow2(b, count);
        lemma_pow_of_pow2(b, (leading + found.1) as nat);
        assert(b * found.1 >= 0 && b * count >= 0) by (nonlinear_arith)
            requires
                b >= 0,
                found.1 >= 0,
                count >= 0,
        ;
        assert(b * (leading + found.1) == b * whole + b + b * found.1) by (nonlinear_arith)
            requires
                leading == whole + 1,
        ;
        lemma_scaled_digits(
            found.0 as int,
            mantissa as int,
            shl,
            b * count,
            b * (leading + found.1) as nat,
        );
        lemma_power_products(
            mantissa as int,
            found.0 as int,
            (exp + unit + b * found.1) as nat,
            unit,
            b * count,
            shl + b * (leading + found.1) as nat,
        );
        assert(c * spec_positive_part(0) == 0);
        lemma_read_exactly(float, found.0, found.1, 0, b, c);
        lemma_read_above_zero(
            found.0 as int,
            mantissa as int,
            b * count,
            shl + b * (leading + found.1) as nat,
        );
        (found.0, found.1, 0)
    } else {
        let zeros = spec_ceildiv(-sci_exp, b as int);
        lemma_fundamental_div_mod(sci_exp, b as int);
        assert(whole <= -1) by (nonlinear_arith)
            requires
                sci_exp < 0,
                b >= 1,
                sci_exp == b * whole + sci_exp % (b as int),
                0 <= sci_exp % (b as int),
        ;
        lemma_plain_form(sci_exp, format, write);
        lemma_fraction_text_parts(chars, zeros, write.decimal_point, min);
        let found = lemma_negative_text_read(pre, chars, zeros, format, write, read);
        lemma_pow_of_pow2(b, (count + zeros - 1) as nat);
        lemma_pow_of_pow2(b, found.1);
        assert(b * found.1 >= 0 && b * (count + zeros - 1) >= 0) by (nonlinear_arith)
            requires
                b >= 0,
                found.1 >= 0,
                count + zeros - 1 >= 0,
        ;
        assert(b * (count + zeros - 1) == b * count - b * whole - b) by (nonlinear_arith)
            requires
                zeros == -whole,
        ;
        lemma_scaled_digits(
            found.0 as int,
            mantissa as int,
            shl,
            b * (count + zeros - 1) as nat,
            b * found.1,
        );
        lemma_power_products(
            mantissa as int,
            found.0 as int,
            (exp + unit + b * found.1) as nat,
            unit,
            b * (count + zeros - 1) as nat,
            shl + b * found.1,
        );
        assert(c * spec_positive_part(0) == 0);
        lemma_read_exactly(float, found.0, found.1, 0, b, c);
        lemma_read_above_zero(
            found.0 as int,
            mantissa as int,
            b * (count + zeros - 1) as nat,
            shl + b * found.1,
        );
        (found.0, found.1, 0)
    }
}

/// Digits that denote a mantissa shifted up, scaled by a power of two,
/// denote the mantissa scaled by the power of both exponents.
pub proof fn lemma_scaled_digits(read: int, mantissa: int, shl: nat, z: nat, w: nat)
    ensures
        read * pow2(z) == (mantissa * pow2(shl)) * pow2(w) ==> read * pow2(z) == mantissa * pow2(
            shl + w,
        ),
{
    lemma_pow2_adds(shl, w);
    assert((mantissa * pow2(shl)) * pow2(w) == mantissa * (pow2(shl) * pow2(w)))
        by (nonlinear_arith);
}

/// What is read of a mantissa above zero is above zero.
pub proof fn lemma_read_above_zero(read: int, mantissa: int, z: nat, w: nat)
    requires
        read * pow2(z) == mantissa * pow2(w),
        mantissa > 0,
        read >= 0,
    ensures
        read > 0,
{
    lemma_pow2_pos(z);
    lemma_pow2_pos(w);
    assert(read > 0) by (nonlinear_arith)
        requires
            read * pow2(z) == mantissa * pow2(w),
            mantissa > 0,
            pow2(w) > 0,
            pow2(z) > 0,
            read >= 0,
    ;
}

/// What the digit of zero is read as where it was written behind the
/// bytes `pre`: a number that is zero.
pub proof fn lemma_exact_zero_read(
    pre: Seq<u8>,
    float: FloatParts,
    format: u128,
    write: Options,
    read: ParseOptions,
) -> (r: (nat, nat, int))
    requires
        float.spec_wf(),
        float.spec_mantissa() == 0,
        spec_reads_as_written(format, write, read),
        spec_is_exact_format(format),
    ensures
        spec_number(
            pre + crate::hex::spec_float_text(0, float.spec_exponent(), format, write),
            format,
            read,
            pre.len() as int,
        ) == Ok::<(Lexeme, int), Error>(
            (
                Lexeme::Number { mantissa: r.0, fraction_digits: r.1, exponent: r.2 },
                (pre + crate::hex::spec_float_text(0, float.spec_exponent(), format, write)).len() as int,
            ),
        ),
        r.0 == 0,
        spec_rounded(
            r.0,
            r.1,
            r.2,
            spec_mantissa_radix(format) as int,
            spec_exponent_base(format) as int,
            float.kind,
        ) == 0,
        spec_char_is_digit(
            crate::hex::spec_float_text(0, float.spec_exponent(), format, write)[0],
            spec_mantissa_radix(format) as int,
        ),
        crate::hex::spec_float_text(0, float.spec_exponent(), format, write).len() >= 1,
{
    let radix = spec_mantissa_radix(format);
    let base = spec_exponent_base(format);
    let exp = float.spec_exponent();
    let b = spec_log2(radix as nat);
    let c = spec_log2(base as nat);
    lemma_exact_format(format);
    lemma_aligned_chars(0, exp, radix);
    let chars = spec_aligned_digits(0, exp, radix);
    let count = chars.len();
    let min = write.spec_min_digits() as int;
    let r = radix as int;
    assert(spec_accumulate(0, chars, radix as nat) == 0) by (nonlinear_arith)
        requires
            spec_accumulate(0, chars, radix as nat) == 0 * pow2(
                spec_shl(exp, b as int) as nat,
            ),
    ;
    let found = if crate::hex::spec_uses_exponent(0, format, write) {
        let exponent = crate::hex::spec_scale_sci_exp(0, b as int, c as int);
        crate::hex::lemma_scale_sci_exp(0, b as int, c as int);
        assert(exponent == 0) by (nonlinear_arith)
            requires
                exponent == (0int / (b as int)) * (b as int / c as int),
                0int / (b as int) == 0,
        ;
        let trim = write.trim_floats && !spec_has_flag(
            format,
            crate::format::NO_EXPONENT_WITHOUT_FRACTION,
        );
        lemma_number_text_parts(chars, 1, write.decimal_point, min, trim);
        let found = lemma_scientific_text_read(pre, chars, exponent, format, write, read);
        lemma_pow_positive(r, count);
        assert(found.0 == 0) by (nonlinear_arith)
            requires
                found.0 * pow(r, count) == 0 * pow(r, 1 + found.1),
                pow(r, count) > 0,
        ;
        (found.0, found.1, exponent)
    } else {
        lemma_plain_form(0, format, write);
        assert(0int / (b as int) + 1 == 1);
        lemma_number_text_parts(chars, 1, write.decimal_point, min, write.trim_floats);
        let found = lemma_positive_text_read(pre, chars, 1, format, write, read);
        lemma_pow_positive(r, count);
        assert(found.0 == 0) by (nonlinear_arith)
            requires
                found.0 * pow(r, count) == 0 * pow(r, (1 + found.1) as nat),
                pow(r, count) > 0,
        ;
        (found.0, found.1, 0int)
    };
    let den = spec_denominator(found.1, found.2, r, base as int);
    lemma_denominator_positive(found.1, found.2, r, base as int);
    let num = spec_numerator(0, found.2, base as int, float.kind);
    assert(num == 0) by (nonlinear_arith)
        requires
            num == 0 * pow(base as int, spec_positive_part(found.2)) * pow2(
                spec_unit_shift(float.kind),
            ),
    ;
    lemma_zero_rounds_to_zero(den, float.kind);
    lemma_rounded_is_nearest(0, found.1, found.2, r, base as int, float.kind);
    found
}

/// A finite float that was written by the digits of its mantissa reads
/// back as itself, bit for bit and with its sign: the float that the text
/// is read as has the bits of the float that was written, and all of the
/// text is taken. This holds in every format whose radix is 2, 4, 8, 16
/// or 32 and whose exponent raises that radix or a power of two that the
/// radix is a power of, where the options of reading agree with those of
/// writing.
pub proof fn lemma_exactly_written_float_reads_back(
    float: FloatParts,
    format: u128,
    write: Options,
    read: ParseOptions,
    partial: bool,
)
    requires
        float.spec_wf(),
        !float.spec_is_special(),
        spec_reads_as_written(format, write, read),
        spec_is_exact_format(format),
    ensures
        crate::parse_float::spec_parse_float(
            spec_text(float, format, write),
            format,
            read,
            float.kind,
            partial,
        ) == Ok::<(int, int), Error>(
            (
                (if float.negative {
                    crate::parse_float::spec_sign_bit(float.kind)
                } else {
                    0
                }) + spec_bits(float),
                spec_text(float, format, write).len() as int,
            ),
        ),
{
    let kind = float.kind;
    let bits = spec_bits(float);
    let sign = spec_sign_text(float.negative, format);
    let mantissa = float.spec_mantissa();
    let body = crate::hex::spec_float_text(mantissa as nat, float.spec_exponent(), format, write);
    let text = spec_text(float, format, write);
    assert(text == sign + body);
    lemma_bits_below_infinity(float);
    let hidden = kind.spec_hidden_bit();
    assert(float.biased_exponent * hidden >= 0) by (nonlinear_arith)
        requires
            float.biased_exponent >= 0,
            hidden > 0,
    ;
    if mantissa == 0 {
        assert(bits == 0) by (nonlinear_arith)
            requires
                bits == float.biased_exponent * hidden + float.fraction,
                float.biased_exponent == 0,
                float.fraction == 0,
        ;
        let found = lemma_exact_zero_read(sign, float, format, write, read);
        lemma_signed_text_lexed(
            float.negative,
            body,
            format,
            write,
            read,
            partial,
            Lexeme::Number { mantissa: found.0, fraction_digits: found.1, exponent: found.2 },
        );
        lemma_lexed_is_parsed(
            text,
            format,
            read,
            kind,
            partial,
            float.negative,
            found.0,
            found.1,
            found.2,
            0,
        );
    } else {
        let found = lemma_exact_digits_read(sign, float, format, write, read);
        lemma_signed_text_lexed(
            float.negative,
            body,
            format,
            write,
            read,
            partial,
            Lexeme::Number { mantissa: found.0, fraction_digits: found.1, exponent: found.2 },
        );
        lemma_lexed_is_parsed(
            text,
            format,
            read,
            kind,
            partial,
            float.negative,
            found.0,
            found.1,
            found.2,
            bits,
        );
    }
}

/// Every finite float that can be written in a format reads back as
/// itself, bit for bit and with its sign, where the options of reading
/// agree with those of writing: whichever writer the format selects, the
/// float that the text is read as has the bits of the float that was
/// written, and all of the text is taken.
pub proof fn lemma_every_written_float_reads_back(
    float: FloatParts,
    format: u128,
    write: Options,
    read: ParseOptions,
    partial: bool,
)
    requires
        float.spec_wf(),
        !float.spec_is_special(),
        crate::write::spec_can_write(float, format, write),
        spec_reads_as_written(format, write, read),
    ensures
        crate::parse_float::spec_parse_float(
            spec_text(float, format, write),
            format,
            read,
            float.kind,
            partial,
        ) == Ok::<(int, int), Error>(
            (
                (if float.negative {
                    crate::parse_float::spec_sign_bit(float.kind)
                } else {
                    0
                }) + spec_bits(float),
                spec_text(float, format, write).len() as int,
            ),
        ),
{
    if spec_is_exact_format(format) {
        lemma_exactly_written_float_reads_back(float, format, write, read, partial);
    } else {
        crate::float_round_trip::lemma_written_float_reads_back(
            float,
            format,
            write,
            read,
            partial,
        );
    }
}

} // verus!
