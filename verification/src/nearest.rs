//! The float that is nearest to a ratio of two natural numbers.
//!
//! The floats of a width that are not negative, counted by their bits from
//! zero up to infinity, grow with their bits. Each is a whole multiple of
//! the smallest float above zero, and in that unit the floats are natural
//! numbers. Rounding takes a ratio, in that unit, to the float nearest to
//! it, and of two that are equally near to the one whose bits are even.
//! Infinity stands for the power of two above the largest float, so that
//! what is nearer to it than to the largest float rounds to infinity.

use crate::bigint::{spec_order, Bigint, Order};
use crate::float::FloatKind;
use vstd::arithmetic::power2::{lemma2_to64, lemma_pow2_pos, lemma_pow2_unfold, pow2};
use vstd::prelude::*;

verus! {

/// The exponent field of bits without a sign.
pub open spec fn spec_biased(bits: int, kind: FloatKind) -> int {
    bits / kind.spec_hidden_bit()
}

/// The power of two that the mantissa of the float with these bits is
/// scaled by, in the unit of the smallest float above zero.
pub open spec fn spec_shift(bits: int, kind: FloatKind) -> nat {
    if spec_biased(bits, kind) <= 1 {
        0
    } else {
        (spec_biased(bits, kind) - 1) as nat
    }
}

/// The mantissa of the float with these bits.
pub open spec fn spec_mantissa(bits: int, kind: FloatKind) -> int {
    if spec_biased(bits, kind) == 0 {
        bits % kind.spec_hidden_bit()
    } else {
        kind.spec_hidden_bit() + bits % kind.spec_hidden_bit()
    }
}

/// The float with these bits, in the unit of the smallest float above
/// zero.
pub open spec fn spec_scaled(bits: int, kind: FloatKind) -> int {
    spec_mantissa(bits, kind) * pow2(spec_shift(bits, kind))
}

/// The distance from the float with these bits to the next one.
pub open spec fn spec_ulp(bits: int, kind: FloatKind) -> int {
    pow2(spec_shift(bits, kind)) as int
}

/// Whether the float with these bits is the nearest to `num / den`: the
/// ratio lies between the middle to the float below and the middle to the
/// float above, and on such a middle only where the bits are even.
pub open spec fn spec_is_nearest(bits: int, num: int, den: int, kind: FloatKind) -> bool {
    let below = (spec_scaled(bits - 1, kind) + spec_scaled(bits, kind)) * den;
    let above = (spec_scaled(bits, kind) + spec_scaled(bits + 1, kind)) * den;
    &&& 0 <= bits <= kind.spec_inf_bits()
    &&& bits > 0 ==> below < 2 * num || (below == 2 * num && bits % 2 == 0)
    &&& bits < kind.spec_inf_bits() ==> 2 * num < above || (2 * num == above && bits % 2 == 0)
}

/// The next float lies one unit in the last place above a float.
pub proof fn lemma_scaled_step(bits: int, kind: FloatKind)
    requires
        0 <= bits < kind.spec_inf_bits(),
    ensures
        spec_scaled(bits + 1, kind) == spec_scaled(bits, kind) + spec_ulp(bits, kind),
        spec_ulp(bits, kind) > 0,
        spec_scaled(bits, kind) >= 0,
{
    let hidden = kind.spec_hidden_bit();
    let biased = spec_biased(bits, kind);
    let fraction = bits % hidden;
    let shift = spec_shift(bits, kind);
    let mantissa = spec_mantissa(bits, kind);
    lemma_pow2_pos(shift);
    lemma2_to64();
    let unit = pow2(shift) as int;
    vstd::arithmetic::div_mod::lemma_fundamental_div_mod(bits, hidden);
    assert(bits == hidden * biased + fraction);
    assert(0 <= fraction < hidden);
    assert(biased >= 0) by (nonlinear_arith)
        requires
            bits == hidden * biased + fraction,
            0 <= fraction < hidden,
            bits >= 0,
    ;
    assert(mantissa * unit >= 0) by (nonlinear_arith)
        requires
            mantissa >= 0,
            unit > 0,
    ;
    if fraction + 1 < hidden {
        vstd::arithmetic::div_mod::lemma_fundamental_div_mod_converse(
            bits + 1,
            hidden,
            biased,
            fraction + 1,
        );
        assert(spec_biased(bits + 1, kind) == biased);
        assert((bits + 1) % hidden == fraction + 1);
        assert(spec_mantissa(bits + 1, kind) == mantissa + 1);
        assert(spec_shift(bits + 1, kind) == shift);
        assert((mantissa + 1) * unit == mantissa * unit + unit) by (nonlinear_arith);
    } else {
        assert(bits + 1 == (biased + 1) * hidden + 0) by (nonlinear_arith)
            requires
                bits == hidden * biased + fraction,
                fraction + 1 == hidden,
        ;
        vstd::arithmetic::div_mod::lemma_fundamental_div_mod_converse(
            bits + 1,
            hidden,
            biased + 1,
            0,
        );
        assert(spec_biased(bits + 1, kind) == biased + 1);
        assert((bits + 1) % hidden == 0);
        assert(spec_mantissa(bits + 1, kind) == hidden);
        if biased == 0 {
            assert(spec_shift(bits + 1, kind) == 0);
            assert(shift == 0);
            assert(unit == 1);
            assert(mantissa == hidden - 1);
            assert(hidden * unit == (hidden - 1) * unit + unit) by (nonlinear_arith);
        } else {
            lemma_pow2_unfold(shift + 1);
            assert(spec_shift(bits + 1, kind) == shift + 1);
            assert(mantissa == 2 * hidden - 1);
            assert(hidden * (2 * unit) == (2 * hidden - 1) * unit + unit) by (nonlinear_arith);
        }
    }
}

/// Floats grow with their bits.
pub proof fn lemma_scaled_increases(low: int, high: int, kind: FloatKind)
    requires
        0 <= low <= high <= kind.spec_inf_bits(),
    ensures
        spec_scaled(low, kind) <= spec_scaled(high, kind),
        low < high ==> spec_scaled(low, kind) < spec_scaled(high, kind),
    decreases high - low,
{
    if low < high {
        lemma_scaled_increases(low, high - 1, kind);
        lemma_scaled_step(high - 1, kind);
    }
}

/// No ratio has two nearest floats.
pub proof fn lemma_nearest_is_unique(a: int, b: int, num: int, den: int, kind: FloatKind)
    requires
        den > 0,
        spec_is_nearest(a, num, den, kind),
        spec_is_nearest(b, num, den, kind),
    ensures
        a == b,
{
    lemma_nearest_not_below(a, b, num, den, kind);
    lemma_nearest_not_below(b, a, num, den, kind);
}

/// Of two floats that are nearest to a ratio, the first is not below the
/// second.
proof fn lemma_nearest_not_below(a: int, b: int, num: int, den: int, kind: FloatKind)
    requires
        den > 0,
        spec_is_nearest(a, num, den, kind),
        spec_is_nearest(b, num, den, kind),
    ensures
        a >= b,
{
    if a >= b {
        return ;
    }
    lemma_scaled_increases(a, b - 1, kind);
    lemma_scaled_increases(a + 1, b, kind);
    let above = spec_scaled(a, kind) + spec_scaled(a + 1, kind);
    let below = spec_scaled(b - 1, kind) + spec_scaled(b, kind);
    assert(above <= below);
    assert(above * den <= below * den) by (nonlinear_arith)
        requires
            above <= below,
            den > 0,
    ;
    if a + 1 < b {
        assert(above < below);
        assert(above * den < below * den) by (nonlinear_arith)
            requires
                above < below,
                den > 0,
        ;
    }
}

/// The bits of the largest float, counted down from `from`, that is not
/// above `num / den`.
pub open spec fn spec_floor_bits(from: int, num: int, den: int, kind: FloatKind) -> int
    decreases from,
{
    if from <= 0 {
        0
    } else if spec_scaled(from, kind) * den <= num {
        from
    } else {
        spec_floor_bits(from - 1, num, den, kind)
    }
}

/// The float found counting down is not above the ratio, and the float
/// above it is, unless it is the one the counting began with.
pub proof fn lemma_floor_bits(from: int, num: int, den: int, kind: FloatKind)
    requires
        0 <= from <= kind.spec_inf_bits(),
        0 <= num,
        0 < den,
    ensures
        0 <= spec_floor_bits(from, num, den, kind) <= from,
        spec_scaled(spec_floor_bits(from, num, den, kind), kind) * den <= num,
        spec_floor_bits(from, num, den, kind) < from ==> num < spec_scaled(
            spec_floor_bits(from, num, den, kind) + 1,
            kind,
        ) * den,
    decreases from,
{
    if from <= 0 {
        assert(spec_scaled(0, kind) == 0) by {
            assert(0 * pow2(spec_shift(0, kind)) == 0);
        }
        assert(spec_scaled(0, kind) * den == 0) by (nonlinear_arith)
            requires
                spec_scaled(0, kind) == 0,
        ;
    } else if spec_scaled(from, kind) * den <= num {
    } else {
        lemma_floor_bits(from - 1, num, den, kind);
    }
}

/// Every ratio that is not negative has a nearest float.
pub proof fn lemma_nearest_exists(num: int, den: int, kind: FloatKind)
    requires
        0 <= num,
        0 < den,
    ensures
        exists|bits: int| spec_is_nearest(bits, num, den, kind),
{
    let inf = kind.spec_inf_bits();
    let low = spec_floor_bits(inf, num, den, kind);
    lemma_floor_bits(inf, num, den, kind);
    let here = spec_scaled(low, kind);
    if low > 0 {
        lemma_scaled_increases(low - 1, low, kind);
        let under = spec_scaled(low - 1, kind);
        assert((under + here) * den < 2 * (here * den)) by (nonlinear_arith)
            requires
                under < here,
                den > 0,
        ;
    }
    if low == inf {
        assert(spec_is_nearest(low, num, den, kind));
    } else {
        lemma_scaled_step(low, kind);
        let next = spec_scaled(low + 1, kind);
        if low + 1 < inf {
            lemma_scaled_increases(low + 1, low + 2, kind);
            let over = spec_scaled(low + 2, kind);
            assert(2 * (next * den) < (next + over) * den) by (nonlinear_arith)
                requires
                    next < over,
                    den > 0,
            ;
        }
        assert((here + next) * den < 2 * (next * den)) by (nonlinear_arith)
            requires
                here < next,
                den > 0,
        ;
        let middle = (here + next) * den;
        if 2 * num < middle || (2 * num == middle && low % 2 == 0) {
            assert(spec_is_nearest(low, num, den, kind));
        } else {
            assert(spec_is_nearest(low + 1, num, den, kind));
        }
    }
}

/// The float that a ratio rounds to, of the two floats that it lies
/// between: the lower one where the middle of the two is above the ratio,
/// the upper one where it is below, and the one with even bits where the
/// ratio is the middle.
pub open spec fn spec_decided(low: int, middle: Order) -> int {
    match middle {
        Order::Greater => low,
        Order::Less => low + 1,
        Order::Equal => if low % 2 == 0 {
            low
        } else {
            low + 1
        },
    }
}

/// Where a ratio lies between a float and the next one, the float nearest
/// to it is decided by how the middle of the two compares with it.
pub proof fn lemma_nearest_decided(low: int, middle: Order, num: int, den: int, kind: FloatKind)
    requires
        0 <= low < kind.spec_inf_bits(),
        den > 0,
        spec_scaled(low, kind) * den <= num < spec_scaled(low + 1, kind) * den,
        middle == spec_order((2 * spec_scaled(low, kind) + spec_ulp(low, kind)) * den, 2 * num),
    ensures
        spec_is_nearest(spec_decided(low, middle), num, den, kind),
{
    let inf = kind.spec_inf_bits();
    lemma_scaled_step(low, kind);
    let here = spec_scaled(low, kind);
    let next = spec_scaled(low + 1, kind);
    assert(here + next == 2 * here + spec_ulp(low, kind));
    if low > 0 {
        lemma_scaled_increases(low - 1, low, kind);
        let under = spec_scaled(low - 1, kind);
        assert((under + here) * den < 2 * (here * den)) by (nonlinear_arith)
            requires
                under < here,
                den > 0,
        ;
    }
    if low + 1 < inf {
        lemma_scaled_increases(low + 1, low + 2, kind);
        let over = spec_scaled(low + 2, kind);
        assert(2 * (next * den) < (next + over) * den) by (nonlinear_arith)
            requires
                next < over,
                den > 0,
        ;
    }
    assert((here + next) * den < 2 * (next * den)) by (nonlinear_arith)
        requires
            here < next,
            den > 0,
    ;
}

/// A ratio that is not below the power of two above all floats rounds to
/// infinity.
pub proof fn lemma_nearest_infinity(num: int, den: int, kind: FloatKind)
    requires
        den > 0,
        spec_scaled(kind.spec_inf_bits(), kind) * den <= num,
    ensures
        spec_is_nearest(kind.spec_inf_bits(), num, den, kind),
{
    let inf = kind.spec_inf_bits();
    lemma_scaled_increases(inf - 1, inf, kind);
    let top = spec_scaled(inf, kind);
    let under = spec_scaled(inf - 1, kind);
    assert((under + top) * den < 2 * (top * den)) by (nonlinear_arith)
        requires
            under < top,
            den > 0,
    ;
}

/// The float with these bits times `den`, or, where `middle` is set, the
/// sum of that float and the next one times `den`.
fn float_multiple(bits: u64, den: &Bigint, kind: FloatKind, middle: bool) -> (r: Bigint)
    requires
        den.spec_wf(),
        0 <= bits <= kind.spec_inf_bits(),
    ensures
        r.spec_wf(),
        !middle ==> r.spec_value() == spec_scaled(bits as int, kind) * den.spec_value(),
        middle ==> r.spec_value() == (2 * spec_scaled(bits as int, kind) + spec_ulp(
            bits as int,
            kind,
        )) * den.spec_value(),
{
    let hidden = kind.hidden_bit();
    let biased = bits / hidden;
    let fraction = bits % hidden;
    let mantissa = if biased == 0 {
        fraction
    } else {
        hidden + fraction
    };
    let shift: u32 = if biased <= 1 {
        0
    } else {
        (biased - 1) as u32
    };
    let factor = if middle {
        2 * mantissa + 1
    } else {
        mantissa
    };
    proof {
        let unit = pow2(shift as nat) as int;
        let d = den.spec_value() as int;
        lemma_pow2_pos(shift as nat);
        assert(d * factor * unit == (factor * unit) * d) by (nonlinear_arith);
        assert((2 * mantissa + 1) * unit == 2 * (mantissa * unit) + unit) by (nonlinear_arith);
    }
    den.mul_scalar(factor).shl(shift)
}

/// The bits of the float nearest to `num / den`, the unit being the
/// smallest float above zero. The bits of infinity are given where the
/// ratio is nearer to the power of two above all floats than to the
/// largest float.
pub fn nearest_float(num: &Bigint, den: &Bigint, kind: FloatKind) -> (bits: u64)
    requires
        num.spec_wf(),
        den.spec_wf(),
        den.spec_value() > 0,
    ensures
        spec_is_nearest(bits as int, num.spec_value() as int, den.spec_value() as int, kind),
{
    let ghost n = num.spec_value() as int;
    let ghost d = den.spec_value() as int;
    let inf = kind.inf_bits();
    let mut low: u64 = 0;
    let mut high: u64 = inf + 1;
    proof {
        assert(spec_scaled(0, kind) == 0) by {
            assert(0 * pow2(spec_shift(0, kind)) == 0);
        }
        assert(spec_scaled(0, kind) * d == 0);
    }
    while high - low > 1
        invariant
            0 <= low < high <= inf + 1,
            inf == kind.spec_inf_bits(),
            num.spec_wf(),
            den.spec_wf(),
            n == num.spec_value(),
            d == den.spec_value(),
            spec_scaled(low as int, kind) * d <= n,
            high <= inf ==> n < spec_scaled(high as int, kind) * d,
        decreases high - low,
    {
        let middle = low + (high - low) / 2;
        let product = float_multiple(middle, den, kind, false);
        match product.compare(num) {
            Order::Greater => {
                high = middle;
            },
            _ => {
                low = middle;
            },
        }
    }
    if low == inf {
        proof {
            lemma_nearest_infinity(n, d, kind);
        }
        return inf;
    }
    let twice = num.mul_scalar(2);
    let sum = float_multiple(low, den, kind, true);
    let order = sum.compare(&twice);
    proof {
        lemma_nearest_decided(low as int, order, n, d, kind);
    }
    match order {
        Order::Greater => low,
        Order::Less => low + 1,
        Order::Equal => if low % 2 == 0 {
            low
        } else {
            low + 1
        },
    }
}

} // verus!
