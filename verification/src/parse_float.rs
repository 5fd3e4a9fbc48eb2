//! Reading a float: the text is taken apart, and the number it denotes is
//! rounded to the nearest float.

use crate::bigint::{lemma_limbs_bound, spec_base, Bigint};
use crate::error::Error;
use crate::fast_path::{checked_pow, nearest_small};
use crate::float::{Float32, Float64, FloatKind};
use crate::format::{
    exponent_base, mantissa_radix, spec_exponent_base, spec_is_valid, spec_mantissa_radix,
};
use crate::lex::{lex_float, spec_capped, spec_lex, Lexed, Lexeme, TextKind, EXPONENT_CAP};
use crate::nearest::{
    lemma_nearest_is_unique, lemma_scaled_increases, nearest_float, spec_is_nearest, spec_scaled,
};
use crate::options::ParseOptions;
use vstd::arithmetic::power::{lemma_pow0, lemma_pow_adds, lemma_pow_positive, pow};
use vstd::arithmetic::power2::{
    lemma2_to64, lemma2_to64_rest, lemma_pow2_adds, lemma_pow2_pos, lemma_pow2_strictly_increases,
    lemma_pow2_unfold, pow2,
};
use vstd::prelude::*;

verus! {

/// By how many bits a number is shifted up to count in the unit of the
/// smallest float above zero.
pub open spec fn spec_unit_shift(kind: FloatKind) -> nat {
    (kind.spec_exponent_bias() - 1) as nat
}

/// The part of an exponent above zero.
pub open spec fn spec_positive_part(exponent: int) -> nat {
    if exponent > 0 {
        exponent as nat
    } else {
        0
    }
}

/// The numerator of the number `mantissa / radix^fraction_digits *
/// base^exponent`, in the unit of the smallest float above zero.
pub open spec fn spec_numerator(mantissa: nat, exponent: int, base: int, kind: FloatKind) -> int {
    mantissa * pow(base, spec_positive_part(exponent)) * pow2(spec_unit_shift(kind))
}

/// The denominator of the number `mantissa / radix^fraction_digits *
/// base^exponent`.
pub open spec fn spec_denominator(fraction_digits: nat, exponent: int, radix: int, base: int) -> int {
    pow(radix, fraction_digits) * pow(base, spec_positive_part(-exponent))
}

/// The bits of the float nearest to the number `mantissa /
/// radix^fraction_digits * base^exponent`; the bits of infinity where the
/// number is beyond all floats.
pub open spec fn spec_rounded(
    mantissa: nat,
    fraction_digits: nat,
    exponent: int,
    radix: int,
    base: int,
    kind: FloatKind,
) -> int {
    choose|bits: int|
        spec_is_nearest(
            bits,
            spec_numerator(mantissa, exponent, base, kind),
            spec_denominator(fraction_digits, exponent, radix, base),
            kind,
        )
}

/// The float that a number is rounded to is the nearest to it: the number
/// lies no farther from it than from the middle to either of the floats
/// beside it, and on such a middle only where the bits of the float are
/// even. No other float is.
pub proof fn lemma_rounded_is_nearest(
    mantissa: nat,
    fraction_digits: nat,
    exponent: int,
    radix: int,
    base: int,
    kind: FloatKind,
)
    requires
        radix >= 1,
        base >= 1,
    ensures
        spec_is_nearest(
            spec_rounded(mantissa, fraction_digits, exponent, radix, base, kind),
            spec_numerator(mantissa, exponent, base, kind),
            spec_denominator(fraction_digits, exponent, radix, base),
            kind,
        ),
        forall|bits: int|
            spec_is_nearest(
                bits,
                spec_numerator(mantissa, exponent, base, kind),
                spec_denominator(fraction_digits, exponent, radix, base),
                kind,
            ) ==> bits == spec_rounded(mantissa, fraction_digits, exponent, radix, base, kind),
{
    let num = spec_numerator(mantissa, exponent, base, kind);
    let den = spec_denominator(fraction_digits, exponent, radix, base);
    let rounded = spec_rounded(mantissa, fraction_digits, exponent, radix, base, kind);
    lemma_denominator_positive(fraction_digits, exponent, radix, base);
    lemma_pow_positive(base, spec_positive_part(exponent));
    lemma_pow2_pos(spec_unit_shift(kind));
    let power = pow(base, spec_positive_part(exponent));
    let unit = pow2(spec_unit_shift(kind)) as int;
    assert(mantissa * power * unit >= 0) by (nonlinear_arith)
        requires
            mantissa >= 0,
            power > 0,
            unit > 0,
    ;
    crate::nearest::lemma_nearest_exists(num, den, kind);
    assert forall|bits: int| spec_is_nearest(bits, num, den, kind) implies bits == rounded by {
        lemma_nearest_is_unique(bits, rounded, num, den, kind);
    }
}

/// A power of a base that is at least 2 is at least the power of 2.
pub proof fn lemma_pow_above_pow2(base: int, e: nat)
    requires
        base >= 2,
    ensures
        pow(base, e) >= pow2(e),
        pow(base, e) >= 1,
    decreases e,
{
    lemma2_to64();
    if e == 0 {
        lemma_pow0(base);
    } else {
        lemma_pow_above_pow2(base, (e - 1) as nat);
        lemma_pow_adds(base, 1, (e - 1) as nat);
        vstd::arithmetic::power::lemma_pow1(base);
        lemma_pow2_unfold(e);
        let below = pow(base, (e - 1) as nat);
        assert(base * below >= 2 * below) by (nonlinear_arith)
            requires
                base >= 2,
                below >= 1,
        ;
    }
}

/// A power of a radix that is at most 64 is at most the power of 2 with
/// six times the exponent.
pub proof fn lemma_pow_below_pow2(radix: int, e: nat)
    requires
        1 <= radix <= 64,
    ensures
        1 <= pow(radix, e) <= pow2(6 * e),
    decreases e,
{
    lemma2_to64();
    if e == 0 {
        lemma_pow0(radix);
    } else {
        lemma_pow_below_pow2(radix, (e - 1) as nat);
        lemma_pow_adds(radix, 1, (e - 1) as nat);
        vstd::arithmetic::power::lemma_pow1(radix);
        lemma_pow2_adds(6, (6 * (e - 1)) as nat);
        let below = pow(radix, (e - 1) as nat);
        let bound = pow2((6 * (e - 1)) as nat);
        assert(radix * below <= 64 * bound && radix * below >= 1) by (nonlinear_arith)
            requires
                1 <= radix <= 64,
                1 <= below <= bound,
        ;
    }
}

/// Powers of two grow with their exponents.
pub proof fn lemma_pow2_increases(low: nat, high: nat)
    requires
        low <= high,
    ensures
        pow2(low) <= pow2(high),
{
    if low < high {
        lemma_pow2_strictly_increases(low, high);
    }
}

/// Infinity stands for two to the number of bits of the mantissa and of
/// the largest exponent.
pub proof fn lemma_scaled_infinity(kind: FloatKind)
    ensures
        spec_scaled(kind.spec_inf_bits(), kind) == pow2(
            match kind {
                FloatKind::Binary32 => 277nat,
                FloatKind::Binary64 => 2098nat,
            },
        ),
{
    lemma2_to64();
    lemma2_to64_rest();
    match kind {
        FloatKind::Binary32 => {
            assert(kind.spec_inf_bits() == 0x7f80_0000);
            assert(kind.spec_inf_bits() / kind.spec_hidden_bit() == 0xff);
            assert(kind.spec_inf_bits() % kind.spec_hidden_bit() == 0);
            lemma_pow2_adds(23, 254);
        },
        FloatKind::Binary64 => {
            assert(kind.spec_inf_bits() == 0x7ff0_0000_0000_0000);
            assert(kind.spec_inf_bits() / kind.spec_hidden_bit() == 0x7ff);
            assert(kind.spec_inf_bits() % kind.spec_hidden_bit() == 0);
            lemma_pow2_adds(52, 2046);
        },
    }
}

/// The exponent from which on every number above zero is beyond all
/// floats, whatever its mantissa of `fraction_digits` digits behind the
/// point.
pub open spec fn spec_overflow_bound(fraction_digits: nat, kind: FloatKind) -> int {
    6 * fraction_digits + (match kind {
        FloatKind::Binary32 => 128int,
        FloatKind::Binary64 => 1024int,
    })
}

/// The size of a negative exponent from which on every number is nearer to
/// zero than to any other float, whatever its mantissa of `limbs` limbs.
pub open spec fn spec_underflow_bound(limbs: nat, kind: FloatKind) -> int {
    (32 * limbs + spec_unit_shift(kind) + 1) as int
}

/// A number above zero with an exponent from the overflow bound on rounds
/// to infinity.
pub proof fn lemma_rounds_to_infinity(
    mantissa: nat,
    fraction_digits: nat,
    exponent: int,
    radix: int,
    base: int,
    kind: FloatKind,
)
    requires
        mantissa >= 1,
        2 <= radix <= 36,
        2 <= base <= 36,
        exponent >= spec_overflow_bound(fraction_digits, kind),
    ensures
        spec_is_nearest(
            kind.spec_inf_bits(),
            spec_numerator(mantissa, exponent, base, kind),
            spec_denominator(fraction_digits, exponent, radix, base),
            kind,
        ),
        spec_denominator(fraction_digits, exponent, radix, base) > 0,
{
    let inf = kind.spec_inf_bits();
    let up = spec_unit_shift(kind);
    let num = spec_numerator(mantissa, exponent, base, kind);
    let den = spec_denominator(fraction_digits, exponent, radix, base);
    let top = spec_scaled(inf, kind);
    let e = exponent as nat;
    let height: nat = match kind {
        FloatKind::Binary32 => 277,
        FloatKind::Binary64 => 2098,
    };
    lemma_scaled_infinity(kind);
    lemma_pow_above_pow2(base, e);
    lemma_pow_below_pow2(radix, fraction_digits);
    lemma_pow0(base);
    assert(den == pow(radix, fraction_digits)) by {
        assert(pow(radix, fraction_digits) * 1 == pow(radix, fraction_digits));
    }
    lemma_pow2_adds(e, up);
    lemma_pow2_adds(height, 6 * fraction_digits);
    lemma_pow2_increases(height + 6 * fraction_digits, e + up);
    lemma_pow2_pos(up);
    lemma_pow2_pos(height);
    let unit = pow2(up) as int;
    let power = pow(base, e);
    assert(num >= pow2(e) * unit) by (nonlinear_arith)
        requires
            num == mantissa * power * unit,
            mantissa >= 1,
            power >= pow2(e),
            unit > 0,
    ;
    assert(top * den <= pow2(height) * pow2(6 * fraction_digits)) by (nonlinear_arith)
        requires
            top == pow2(height),
            1 <= den <= pow2(6 * fraction_digits),
            pow2(height) > 0,
    ;
    assert(top * den <= num);
    lemma_scaled_increases(inf - 1, inf, kind);
    let under = spec_scaled(inf - 1, kind);
    assert((under + top) * den < 2 * num) by (nonlinear_arith)
        requires
            under < top,
            den >= 1,
            top * den <= num,
    ;
}

/// A number with an exponent below zero of a size from the underflow
/// bound on rounds to zero.
pub proof fn lemma_rounds_to_zero(
    mantissa: nat,
    limbs: nat,
    fraction_digits: nat,
    exponent: int,
    radix: int,
    base: int,
    kind: FloatKind,
)
    requires
        mantissa < pow(spec_base(), limbs),
        2 <= radix <= 36,
        2 <= base <= 36,
        -exponent >= spec_underflow_bound(limbs, kind),
    ensures
        spec_is_nearest(
            0,
            spec_numerator(mantissa, exponent, base, kind),
            spec_denominator(fraction_digits, exponent, radix, base),
            kind,
        ),
        spec_denominator(fraction_digits, exponent, radix, base) > 0,
{
    let up = spec_unit_shift(kind);
    let num = spec_numerator(mantissa, exponent, base, kind);
    let den = spec_denominator(fraction_digits, exponent, radix, base);
    let e = (-exponent) as nat;
    lemma2_to64();
    lemma_pow_above_pow2(base, e);
    lemma_pow_below_pow2(radix, fraction_digits);
    lemma_pow0(base);
    vstd::arithmetic::power::lemma_pow_multiplies(2, 32, limbs);
    lemma_pow_positive(2, 32);
    assert(pow(2, 32) == spec_base());
    lemma_pow_positive(2, 32 * limbs);
    assert(mantissa < pow2(32 * limbs));
    lemma_pow2_adds(32 * limbs, up);
    lemma_pow2_unfold(32 * limbs + up + 1);
    lemma_pow2_increases(32 * limbs + up + 1, e);
    lemma_pow2_pos(up);
    let unit = pow2(up) as int;
    let size = pow2(32 * limbs) as int;
    let power = pow(base, e);
    let scale = pow(radix, fraction_digits);
    assert(num == mantissa * unit) by {
        assert(mantissa * 1 * unit == mantissa * unit);
    }
    assert(2 * num <= 2 * (size * unit)) by (nonlinear_arith)
        requires
            num == mantissa * unit,
            0 <= mantissa < size,
            unit > 0,
    ;
    assert(den >= power && den > 0) by (nonlinear_arith)
        requires
            den == scale * power,
            scale >= 1,
            power >= 1,
    ;
    assert(2 * num <= den);
    // The floats 0 and 1 are 0 and 1 unit.
    assert(spec_scaled(0, kind) == 0) by {
        assert(0 * pow2(crate::nearest::spec_shift(0, kind)) == 0);
    }
    assert(spec_scaled(1, kind) == 1) by {
        assert(1int / kind.spec_hidden_bit() == 0);
        assert(1int % kind.spec_hidden_bit() == 1);
        assert(1 * pow2(0) == 1);
    }
    assert((0 + 1) * den == den) by (nonlinear_arith);
}

/// Zero rounds to zero.
pub proof fn lemma_zero_rounds_to_zero(den: int, kind: FloatKind)
    requires
        den > 0,
    ensures
        spec_is_nearest(0, 0, den, kind),
{
    lemma2_to64();
    assert(spec_scaled(0, kind) == 0) by {
        assert(0 * pow2(crate::nearest::spec_shift(0, kind)) == 0);
    }
    assert(spec_scaled(1, kind) == 1) by {
        assert(1int / kind.spec_hidden_bit() == 0);
        assert(1int % kind.spec_hidden_bit() == 1);
        assert(1 * pow2(0) == 1);
    }
    assert((0 + 1) * den == den) by (nonlinear_arith);
}

/// The denominator of a number is above zero.
pub proof fn lemma_denominator_positive(fraction_digits: nat, exponent: int, radix: int, base: int)
    requires
        radix >= 1,
        base >= 1,
    ensures
        spec_denominator(fraction_digits, exponent, radix, base) > 0,
{
    lemma_pow_positive(radix, fraction_digits);
    lemma_pow_positive(base, spec_positive_part(-exponent));
    let a = pow(radix, fraction_digits);
    let b = pow(base, spec_positive_part(-exponent));
    assert(a * b > 0) by (nonlinear_arith)
        requires
            a > 0,
            b > 0,
    ;
}

/// The bit of the sign.
pub open spec fn spec_sign_bit(kind: FloatKind) -> int {
    match kind {
        FloatKind::Binary32 => 0x8000_0000,
        FloatKind::Binary64 => 0x8000_0000_0000_0000,
    }
}

/// The bits of the NaN that is read: those of infinity with the highest
/// bit of the fraction set.
pub open spec fn spec_nan_bits(kind: FloatKind) -> int {
    match kind {
        FloatKind::Binary32 => 0x7fc0_0000,
        FloatKind::Binary64 => 0x7ff8_0000_0000_0000,
    }
}

/// The bits of the float that a text denotes. A number is rounded to the
/// nearest float. One that rounds to infinity, or to zero without being
/// zero, is read so only where `lossy` is set, and else fails with the
/// index behind the text.
pub open spec fn spec_float_bits(
    lexed: Lexed,
    radix: int,
    base: int,
    kind: FloatKind,
    lossy: bool,
) -> Result<int, Error> {
    let sign = if lexed.negative {
        spec_sign_bit(kind)
    } else {
        0
    };
    match lexed.lexeme {
        Lexeme::Nan => Ok(sign + spec_nan_bits(kind)),
        Lexeme::Inf => Ok(sign + kind.spec_inf_bits()),
        Lexeme::Number { mantissa, fraction_digits, exponent } => {
            let bits = spec_rounded(mantissa, fraction_digits, exponent, radix, base, kind);
            if bits == kind.spec_inf_bits() && !lossy {
                Err(Error::Overflow(lexed.consumed as usize))
            } else if bits == 0 && mantissa != 0 && !lossy {
                Err(Error::Underflow(lexed.consumed as usize))
            } else {
                Ok(sign + bits)
            }
        },
    }
}

/// A number that is not below the power of two above all floats is read
/// as infinity where the reading is lossy, and else fails with the index
/// behind the text.
pub proof fn lemma_beyond_all_floats(
    lexed: Lexed,
    mantissa: nat,
    fraction_digits: nat,
    exponent: int,
    radix: int,
    base: int,
    kind: FloatKind,
    lossy: bool,
)
    requires
        radix >= 1,
        base >= 1,
        lexed.lexeme == (Lexeme::Number { mantissa, fraction_digits, exponent }),
        spec_scaled(kind.spec_inf_bits(), kind) * spec_denominator(
            fraction_digits,
            exponent,
            radix,
            base,
        ) <= spec_numerator(mantissa, exponent, base, kind),
    ensures
        spec_rounded(mantissa, fraction_digits, exponent, radix, base, kind)
            == kind.spec_inf_bits(),
        lossy ==> spec_float_bits(lexed, radix, base, kind, lossy) == Ok::<int, Error>(
            (if lexed.negative {
                spec_sign_bit(kind)
            } else {
                0
            }) + kind.spec_inf_bits(),
        ),
        !lossy ==> spec_float_bits(lexed, radix, base, kind, lossy) == Err::<int, Error>(
            Error::Overflow(lexed.consumed as usize),
        ),
{
    lemma_denominator_positive(fraction_digits, exponent, radix, base);
    crate::nearest::lemma_nearest_infinity(
        spec_numerator(mantissa, exponent, base, kind),
        spec_denominator(fraction_digits, exponent, radix, base),
        kind,
    );
    lemma_rounded_is_nearest(mantissa, fraction_digits, exponent, radix, base, kind);
}

/// The bits of the float that stands at the start of `buffer`, and the
/// index behind it.
pub open spec fn spec_parse_float(
    buffer: Seq<u8>,
    format: u128,
    options: ParseOptions,
    kind: FloatKind,
    partial: bool,
) -> Result<(int, int), Error> {
    match spec_lex(buffer, format, options, partial) {
        Err(error) => Err(error),
        Ok(lexed) => match spec_float_bits(
            lexed,
            spec_mantissa_radix(format) as int,
            spec_exponent_base(format) as int,
            kind,
            options.lossy,
        ) {
            Err(error) => Err(error),
            Ok(bits) => Ok((bits, lexed.consumed)),
        },
    }
}

/// Whether the numerator and the denominator of the number `mantissa /
/// radix^fraction_digits * base^exponent` both fit in 64 bits.
pub open spec fn spec_is_small(
    mantissa: nat,
    fraction_digits: nat,
    exponent: int,
    radix: int,
    base: int,
) -> bool {
    &&& mantissa * pow(base, spec_positive_part(exponent)) <= u64::MAX
    &&& spec_denominator(fraction_digits, exponent, radix, base) <= u64::MAX
}

/// A product with a factor that is beyond 64 bits is beyond 64 bits.
proof fn lemma_beyond(a: int, b: int)
    requires
        a >= 1,
        b > u64::MAX,
    ensures
        a * b > u64::MAX,
        b * a > u64::MAX,
{
    assert(a * b >= b && b * a >= b) by (nonlinear_arith)
        requires
            a >= 1,
            b > 0,
    ;
}

/// Rounds the number `mantissa / radix^fraction_digits * base^exponent`
/// to the nearest float without a big integer, where its numerator and
/// its denominator both fit in 64 bits.
fn round_small(
    mantissa: &Bigint,
    fraction_digits: usize,
    exponent_negative: bool,
    exponent_size: u128,
    radix: u32,
    base: u32,
    kind: FloatKind,
    Ghost(exponent): Ghost<int>,
) -> (r: Option<u64>)
    requires
        mantissa.spec_wf(),
        mantissa.spec_value() > 0,
        2 <= radix <= 36,
        2 <= base <= 36,
        exponent_size == spec_capped(exponent),
        exponent < 0 ==> exponent_negative,
        exponent > 0 ==> !exponent_negative,
    ensures
        r is Some <==> spec_is_small(
            mantissa.spec_value(),
            fraction_digits as nat,
            exponent,
            radix as int,
            base as int,
        ),
        r matches Some(bits) ==> bits == spec_rounded(
            mantissa.spec_value(),
            fraction_digits as nat,
            exponent,
            radix as int,
            base as int,
            kind,
        ) && 0 <= bits <= kind.spec_inf_bits(),
{
    let ghost m = mantissa.spec_value();
    let ghost f = fraction_digits as nat;
    let ghost up = spec_positive_part(exponent);
    let ghost down = spec_positive_part(-exponent);
    let ghost size = if exponent < 0 {
        (-exponent) as nat
    } else {
        exponent as nat
    };
    let ghost den = spec_denominator(f, exponent, radix as int, base as int);
    proof {
        lemma_pow0(base as int);
        lemma_pow_positive(radix as int, f);
        lemma_pow_positive(base as int, up);
        lemma_pow_positive(base as int, down);
        lemma_pow_positive(base as int, size);
        lemma_denominator_positive(f, exponent, radix as int, base as int);
        // An exponent beyond the cap raises the base beyond 64 bits.
        lemma_pow_above_pow2(base as int, exponent_size as nat);
        if size > EXPONENT_CAP {
            vstd::arithmetic::power::lemma_pow_increases(
                base as nat,
                exponent_size as nat,
                size,
            );
            lemma2_to64();
            lemma_pow2_increases(64, exponent_size as nat);
        }
        assert(pow(base as int, exponent_size as nat) <= u64::MAX ==> exponent_size == size);
    }
    let small = match mantissa.to_u64() {
        Some(small) => small,
        None => {
            proof {
                lemma_beyond(pow(base as int, up), m as int);
            }
            return None;
        },
    };
    let scale = match checked_pow(radix, fraction_digits as u128) {
        Some(scale) => scale,
        None => {
            proof {
                lemma_beyond(pow(base as int, down), pow(radix as int, f));
            }
            return None;
        },
    };
    let power = match checked_pow(base, exponent_size) {
        Some(power) => power,
        None => {
            proof {
                let beyond = pow(base as int, size);
                assert(beyond > u64::MAX);
                if exponent_negative {
                    assert(down == size);
                    lemma_beyond(pow(radix as int, f), beyond);
                } else {
                    assert(up == size);
                    lemma_beyond(m as int, beyond);
                }
            }
            return None;
        },
    };
    let (num, den) = if exponent_negative {
        proof {
            assert(m * 1 == m);
        }
        match scale.checked_mul(power) {
            Some(den) => (small, den),
            None => {
                return None;
            },
        }
    } else {
        proof {
            assert(pow(radix as int, f) * 1 == pow(radix as int, f));
        }
        match small.checked_mul(power) {
            Some(num) => (num, scale),
            None => {
                return None;
            },
        }
    };
    let bits = nearest_small(num, den, kind);
    proof {
        lemma_rounded_is_nearest(m, f, exponent, radix as int, base as int, kind);
    }
    Some(bits)
}

/// Rounds the number `mantissa / radix^fraction_digits * base^exponent`
/// to the nearest float. The exponent is given by its sign and its size,
/// counted up to `EXPONENT_CAP`.
fn round_number(
    mantissa: &Bigint,
    fraction_digits: usize,
    exponent_negative: bool,
    exponent_size: u128,
    radix: u32,
    base: u32,
    kind: FloatKind,
    Ghost(exponent): Ghost<int>,
) -> (bits: u64)
    requires
        mantissa.spec_wf(),
        2 <= radix <= 36,
        2 <= base <= 36,
        exponent_size == spec_capped(exponent),
        exponent < 0 ==> exponent_negative,
        exponent > 0 ==> !exponent_negative,
    ensures
        bits == spec_rounded(
            mantissa.spec_value(),
            fraction_digits as nat,
            exponent,
            radix as int,
            base as int,
            kind,
        ),
        0 <= bits <= kind.spec_inf_bits(),
{
    let ghost m = mantissa.spec_value();
    let ghost f = fraction_digits as nat;
    let ghost num = spec_numerator(m, exponent, base as int, kind);
    let ghost den = spec_denominator(f, exponent, radix as int, base as int);
    let ghost rounded = spec_rounded(m, f, exponent, radix as int, base as int, kind);
    proof {
        lemma_denominator_positive(f, exponent, radix as int, base as int);
    }
    let up: u32 = match kind {
        FloatKind::Binary32 => 149,
        FloatKind::Binary64 => 1074,
    };
    if mantissa.is_zero() {
        proof {
            assert(num == 0) by (nonlinear_arith)
                requires
                    num == m * pow(base as int, spec_positive_part(exponent)) * pow2(
                        spec_unit_shift(kind),
                    ),
                    m == 0,
            ;
            lemma_zero_rounds_to_zero(den, kind);
            lemma_nearest_is_unique(0, rounded, num, den, kind);
        }
        return 0;
    }
    match round_small(
        mantissa,
        fraction_digits,
        exponent_negative,
        exponent_size,
        radix,
        base,
        kind,
        Ghost(exponent),
    ) {
        Some(bits) => {
            return bits;
        },
        None => {},
    }
    let one = Bigint::from_u64(1);
    let scale = one.mul_radix_pow(radix, fraction_digits as u128);
    proof {
        assert(1 * pow(radix as int, f) == pow(radix as int, f));
        lemma_pow0(base as int);
    }
    let (top, bottom) = if !exponent_negative {
        let bound: u128 = 6 * (fraction_digits as u128) + (match kind {
            FloatKind::Binary32 => 128u128,
            FloatKind::Binary64 => 1024u128,
        });
        if exponent_size >= bound {
            proof {
                lemma_rounds_to_infinity(m, f, exponent, radix as int, base as int, kind);
                lemma_nearest_is_unique(kind.spec_inf_bits(), rounded, num, den, kind);
            }
            return kind.inf_bits();
        }
        proof {
            assert(exponent == exponent_size);
            assert(pow(radix as int, f) * 1 == pow(radix as int, f));
        }
        (mantissa.mul_radix_pow(base, exponent_size).shl(up), scale)
    } else {
        let limbs = mantissa.limbs.len();
        let bound: u128 = 32 * (limbs as u128) + up as u128 + 1;
        if exponent_size >= bound {
            proof {
                lemma_limbs_bound(mantissa.limbs@);
                lemma_rounds_to_zero(m, limbs as nat, f, exponent, radix as int, base as int, kind);
                lemma_nearest_is_unique(0, rounded, num, den, kind);
            }
            return 0;
        }
        proof {
            assert(-exponent == exponent_size);
            assert(m * 1 == m);
        }
        (mantissa.shl(up), scale.mul_radix_pow(base, exponent_size))
    };
    let bits = nearest_float(&top, &bottom, kind);
    proof {
        assert(top.spec_value() == num);
        assert(bottom.spec_value() == den);
        lemma_nearest_is_unique(bits as int, rounded, num, den, kind);
    }
    bits
}

/// Reads the float at the start of `bytes` and gives its bits, with the
/// sign, and the index behind it. A whole reading fails where a byte is
/// left behind the float; a partial one ends there.
pub fn parse_float<const FORMAT: u128>(
    bytes: &[u8],
    options: &ParseOptions,
    kind: FloatKind,
    partial: bool,
) -> (r: Result<(u64, usize), Error>)
    requires
        spec_is_valid(FORMAT),
    ensures
        match spec_parse_float(bytes@, FORMAT, *options, kind, partial) {
            Ok((bits, consumed)) => r == Ok::<(u64, usize), Error>(
                (bits as u64, consumed as usize),
            ) && 0 <= bits < 2 * spec_sign_bit(kind) && 0 <= consumed <= bytes@.len(),
            Err(error) => r == Err::<(u64, usize), Error>(error),
        },
{
    let len = bytes.len();
    let text = match lex_float::<FORMAT>(bytes, options, partial) {
        Ok(text) => text,
        Err(error) => {
            return Err(error);
        },
    };
    let ghost lexed = spec_lex(bytes@, FORMAT, *options, partial)->Ok_0;
    proof {
        crate::lex::lemma_lexed_in_bounds(bytes@, FORMAT, *options, partial);
    }
    let sign: u64 = if text.negative {
        match kind {
            FloatKind::Binary32 => 0x8000_0000,
            FloatKind::Binary64 => 0x8000_0000_0000_0000,
        }
    } else {
        0
    };
    match text.kind {
        TextKind::Nan => {
            let nan: u64 = match kind {
                FloatKind::Binary32 => 0x7fc0_0000,
                FloatKind::Binary64 => 0x7ff8_0000_0000_0000,
            };
            Ok((sign + nan, text.consumed))
        },
        TextKind::Inf => Ok((sign + kind.inf_bits(), text.consumed)),
        TextKind::Number => {
            let ghost exponent = lexed.lexeme->exponent;
            let bits = round_number(
                &text.mantissa,
                text.fraction_digits,
                text.exponent_negative,
                text.exponent_size,
                mantissa_radix(FORMAT),
                exponent_base(FORMAT),
                kind,
                Ghost(exponent),
            );
            if bits == kind.inf_bits() && !options.lossy {
                Err(Error::Overflow(text.consumed))
            } else if bits == 0 && !text.mantissa.is_zero() && !options.lossy {
                Err(Error::Underflow(text.consumed))
            } else {
                Ok((sign + bits, text.consumed))
            }
        },
    }
}

/// A float that can be read from text.
pub trait ParseFloat: Sized {
    /// The width of the float.
    spec fn spec_kind() -> FloatKind;

    /// The float with these bits.
    spec fn spec_from_bits(bits: u64) -> Self;

    /// The width of the float.
    fn kind() -> (kind: FloatKind)
        ensures
            kind == Self::spec_kind(),
    ;

    /// The float with these bits, which must fit its width.
    fn from_bits64(bits: u64) -> (float: Self)
        requires
            bits < 2 * spec_sign_bit(Self::spec_kind()),
        ensures
            float == Self::spec_from_bits(bits),
    ;
}

impl ParseFloat for Float32 {
    open spec fn spec_kind() -> FloatKind {
        FloatKind::Binary32
    }

    open spec fn spec_from_bits(bits: u64) -> Float32 {
        Float32 { bits: bits as u32 }
    }

    fn kind() -> (kind: FloatKind) {
        FloatKind::Binary32
    }

    fn from_bits64(bits: u64) -> (float: Float32) {
        Float32 { bits: bits as u32 }
    }
}

impl ParseFloat for Float64 {
    open spec fn spec_kind() -> FloatKind {
        FloatKind::Binary64
    }

    open spec fn spec_from_bits(bits: u64) -> Float64 {
        Float64 { bits }
    }

    fn kind() -> (kind: FloatKind) {
        FloatKind::Binary64
    }

    fn from_bits64(bits: u64) -> (float: Float64) {
        Float64 { bits }
    }
}

/// Reads a float from the whole of `bytes`.
pub fn from_lexical_float<F: ParseFloat, const FORMAT: u128>(
    bytes: &[u8],
    options: &ParseOptions,
) -> (r: Result<F, Error>)
    requires
        spec_is_valid(FORMAT),
    ensures
        match spec_parse_float(bytes@, FORMAT, *options, F::spec_kind(), false) {
            Ok((bits, consumed)) => r == Ok::<F, Error>(F::spec_from_bits(bits as u64)),
            Err(error) => r == Err::<F, Error>(error),
        },
{
    match parse_float::<FORMAT>(bytes, options, F::kind(), false) {
        Ok((bits, consumed)) => Ok(F::from_bits64(bits)),
        Err(error) => Err(error),
    }
}

/// Reads a float from the start of `bytes` and tells how many bytes it
/// took.
pub fn from_lexical_float_partial<F: ParseFloat, const FORMAT: u128>(
    bytes: &[u8],
    options: &ParseOptions,
) -> (r: Result<(F, usize), Error>)
    requires
        spec_is_valid(FORMAT),
    ensures
        match spec_parse_float(bytes@, FORMAT, *options, F::spec_kind(), true) {
            Ok((bits, consumed)) => r == Ok::<(F, usize), Error>(
                (F::spec_from_bits(bits as u64), consumed as usize),
            ),
            Err(error) => r == Err::<(F, usize), Error>(error),
        },
{
    match parse_float::<FORMAT>(bytes, options, F::kind(), true) {
        Ok((bits, consumed)) => Ok((F::from_bits64(bits), consumed)),
        Err(error) => Err(error),
    }
}

} // verus!
