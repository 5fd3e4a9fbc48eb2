//! The digits that are written for a float read back as that float.

use crate::decimal::spec_values;
use crate::float::FloatKind;
use crate::nearest::{lemma_scaled_increases, lemma_scaled_step, spec_is_nearest, spec_scaled};
use crate::parse_float::{spec_denominator, spec_numerator, spec_unit_shift};
use crate::shortest::{
    spec_all_digits, spec_generate, spec_high_ok, spec_increment, spec_low_ok, spec_scale_down,
    spec_scale_up, spec_shortest, spec_start, spec_steps, Remainder,
};
use vstd::arithmetic::div_mod::lemma_fundamental_div_mod;
use vstd::arithmetic::power::{lemma_pow0, lemma_pow1, lemma_pow_adds, lemma_pow_positive, pow};
use vstd::arithmetic::power2::{lemma_pow2_pos, lemma_pow2_unfold, pow2};
use vstd::prelude::*;

verus! {

/// Whether a remainder belongs to the float with these bits after the
/// number `made` was taken off: the numerators were raised by
/// `radix^raised` and the denominator by `radix^scaled`.
pub open spec fn spec_tracks(
    state: Remainder,
    bits: int,
    kind: FloatKind,
    made: nat,
    raised: nat,
    scaled: nat,
    radix: nat,
) -> bool {
    let start = spec_start(bits, kind);
    let up = pow(radix as int, raised);
    let down = pow(radix as int, scaled);
    &&& start.rest * up == made * state.scale + state.rest
    &&& state.scale == start.scale * down
    &&& state.above == start.above * up
    &&& state.below == start.below * up
    &&& state.rest < state.scale
}

/// Whether a ratio and the same ratio over a larger unit are nearest to
/// the same floats.
pub proof fn lemma_nearest_scales(bits: int, num: int, den: int, factor: int, kind: FloatKind)
    requires
        factor > 0,
        spec_is_nearest(bits, num * factor, den * factor, kind),
    ensures
        spec_is_nearest(bits, num, den, kind),
{
    let below = spec_scaled(bits - 1, kind) + spec_scaled(bits, kind);
    let above = spec_scaled(bits, kind) + spec_scaled(bits + 1, kind);
    assert(below * (den * factor) == (below * den) * factor) by (nonlinear_arith);
    assert(above * (den * factor) == (above * den) * factor) by (nonlinear_arith);
    assert(2 * (num * factor) == (2 * num) * factor) by (nonlinear_arith);
    let a = below * den;
    let b = 2 * num;
    let c = above * den;
    assert((a * factor < b * factor) == (a < b) && (a * factor == b * factor) == (a == b))
        by (nonlinear_arith)
        requires
            factor > 0,
    ;
    assert((b * factor < c * factor) == (b < c) && (b * factor == c * factor) == (b == c))
        by (nonlinear_arith)
        requires
            factor > 0,
    ;
}

/// The number that was taken off a remainder reads back as the float
/// where it passes the test for the lower end, and the number one above
/// it where it passes the test for the upper end.
pub proof fn lemma_candidates_read_back(
    state: Remainder,
    bits: int,
    kind: FloatKind,
    made: nat,
    raised: nat,
    scaled: nat,
    radix: nat,
)
    requires
        0 < bits < kind.spec_inf_bits(),
        radix >= 2,
        spec_tracks(state, bits, kind, made, raised, scaled, radix),
    ensures
        spec_low_ok(state.rest, state.below, bits % 2 == 0) ==> spec_is_nearest(
            bits,
            made * pow2(spec_unit_shift(kind)) * pow(radix as int, scaled),
            pow(radix as int, raised),
            kind,
        ),
        spec_high_ok(state.rest, state.scale, state.above, bits % 2 == 0) ==> spec_is_nearest(
            bits,
            (made + 1) * pow2(spec_unit_shift(kind)) * pow(radix as int, scaled),
            pow(radix as int, raised),
            kind,
        ),
{
    let start = spec_start(bits, kind);
    let up = pow(radix as int, raised);
    let down = pow(radix as int, scaled);
    let unit = pow2(spec_unit_shift(kind)) as int;
    let v = spec_scaled(bits, kind);
    let under = spec_scaled(bits - 1, kind);
    let over = spec_scaled(bits + 1, kind);
    lemma_scaled_step(bits, kind);
    lemma_scaled_step(bits - 1, kind);
    lemma_pow_positive(radix as int, raised);
    lemma_pow_positive(radix as int, scaled);
    lemma_pow2_pos(spec_unit_shift(kind));
    lemma_pow2_unfold((spec_unit_shift(kind) + 1) as nat);
    assert(start.scale == 2 * unit);
    assert(start.rest == 2 * v);
    assert(start.above == over - v);
    assert(start.below == v - under);
    let r = state.rest as int;
    let q = made as int;
    // Twice the number made, over `up`, is twice the float less the rest.
    assert(2 * (q * unit * down) == 2 * v * up - r) by (nonlinear_arith)
        requires
            2 * v * up == q * (2 * unit * down) + r,
    ;
    assert(2 * ((q + 1) * unit * down) == 2 * v * up - r + 2 * unit * down) by (nonlinear_arith)
        requires
            2 * v * up == q * (2 * unit * down) + r,
    ;
    assert((under + v) * up == 2 * v * up - (v - under) * up) by (nonlinear_arith);
    assert((v + over) * up == 2 * v * up + (over - v) * up) by (nonlinear_arith);
    assert((over - v) * up > 0) by (nonlinear_arith)
        requires
            over - v > 0,
            up > 0,
    ;
    assert((v - under) * up > 0) by (nonlinear_arith)
        requires
            v - under > 0,
            up > 0,
    ;
    assert(state.scale == 2 * unit * down) by (nonlinear_arith)
        requires
            state.scale == (2 * unit) * down,
    ;
}

/// A ratio over a larger unit is nearest to the same floats.
pub proof fn lemma_nearest_scales_up(bits: int, num: int, den: int, factor: int, kind: FloatKind)
    requires
        factor > 0,
        spec_is_nearest(bits, num, den, kind),
    ensures
        spec_is_nearest(bits, num * factor, den * factor, kind),
{
    let below = spec_scaled(bits - 1, kind) + spec_scaled(bits, kind);
    let above = spec_scaled(bits, kind) + spec_scaled(bits + 1, kind);
    assert(below * (den * factor) == (below * den) * factor) by (nonlinear_arith);
    assert(above * (den * factor) == (above * den) * factor) by (nonlinear_arith);
    assert(2 * (num * factor) == (2 * num) * factor) by (nonlinear_arith);
    let a = below * den;
    let b = 2 * num;
    let c = above * den;
    assert((a * factor < b * factor) == (a < b) && (a * factor == b * factor) == (a == b))
        by (nonlinear_arith)
        requires
            factor > 0,
    ;
    assert((b * factor < c * factor) == (b < c) && (b * factor == c * factor) == (b == c))
        by (nonlinear_arith)
        requires
            factor > 0,
    ;
}

/// Two ratios that are the same number are nearest to the same floats.
pub proof fn lemma_nearest_same_ratio(
    bits: int,
    num: int,
    den: int,
    other_num: int,
    other_den: int,
    kind: FloatKind,
)
    requires
        den > 0,
        other_den > 0,
        num * other_den == other_num * den,
        spec_is_nearest(bits, num, den, kind),
    ensures
        spec_is_nearest(bits, other_num, other_den, kind),
{
    lemma_nearest_scales_up(bits, num, den, other_den, kind);
    assert(den * other_den == other_den * den) by (nonlinear_arith);
    lemma_nearest_scales(bits, other_num, other_den, den, kind);
}

/// Whether a remainder is the one that digit making starts with for the
/// float with these bits, its numerators raised by `radix^raised` and its
/// denominator by `radix^scaled`.
pub open spec fn spec_raised(
    state: Remainder,
    bits: int,
    kind: FloatKind,
    raised: nat,
    scaled: nat,
    radix: nat,
) -> bool {
    let start = spec_start(bits, kind);
    let up = pow(radix as int, raised);
    let down = pow(radix as int, scaled);
    &&& state.rest == start.rest * up
    &&& state.scale == start.scale * down
    &&& state.above == start.above * up
    &&& state.below == start.below * up
}

/// Raising the denominator keeps the remainder that of the float, and
/// leaves it below one.
pub proof fn lemma_scale_up(
    state: Remainder,
    bits: int,
    kind: FloatKind,
    raised: nat,
    scaled: nat,
    radix: nat,
    point: int,
) -> (more: nat)
    requires
        radix >= 2,
        state.scale >= 1,
        spec_raised(state, bits, kind, raised, scaled, radix),
    ensures
        spec_raised(
            spec_scale_up(state, radix, point).0,
            bits,
            kind,
            raised,
            scaled + more,
            radix,
        ),
        spec_scale_up(state, radix, point).1 == point + more,
        spec_scale_up(state, radix, point).0.rest < spec_scale_up(state, radix, point).0.scale,
        spec_scale_up(state, radix, point).0.scale >= 1,
    decreases
        (if state.rest >= state.scale {
            state.rest - state.scale + 1
        } else {
            0
        }),
{
    let scale: nat = state.scale * radix;
    assert(state.scale < scale) by (nonlinear_arith)
        requires
            scale == state.scale * radix,
            state.scale >= 1,
            radix >= 2,
    ;
    if state.rest >= state.scale {
        let next = Remainder { scale, ..state };
        lemma_pow_adds(radix as int, scaled, 1);
        lemma_pow1(radix as int);
        let start = spec_start(bits, kind);
        let down = pow(radix as int, scaled);
        assert(start.scale * (down * radix) == (start.scale * down) * radix) by (nonlinear_arith);
        let rest = lemma_scale_up(next, bits, kind, raised, scaled + 1, radix, point + 1);
        rest + 1
    } else {
        0
    }
}

/// Raising the numerators keeps the remainder that of the float, and
/// leaves it at least a `radix`-th of one.
pub proof fn lemma_scale_down(
    state: Remainder,
    bits: int,
    kind: FloatKind,
    raised: nat,
    scaled: nat,
    radix: nat,
    point: int,
) -> (more: nat)
    requires
        radix >= 2,
        state.rest >= 1,
        state.below >= 1,
        state.rest < state.scale,
        spec_raised(state, bits, kind, raised, scaled, radix),
    ensures
        spec_raised(
            spec_scale_down(state, radix, point).0,
            bits,
            kind,
            raised + more,
            scaled,
            radix,
        ),
        spec_scale_down(state, radix, point).1 == point - more,
        spec_scale_down(state, radix, point).0.rest < spec_scale_down(state, radix, point).0.scale,
        spec_scale_down(state, radix, point).0.scale <= spec_scale_down(
            state,
            radix,
            point,
        ).0.rest * radix,
        spec_scale_down(state, radix, point).0.below >= 1,
        spec_scale_down(state, radix, point).0.rest >= 1,
    decreases state.scale - state.rest,
{
    let rest: nat = state.rest * radix;
    assert(state.rest < rest) by (nonlinear_arith)
        requires
            rest == state.rest * radix,
            state.rest >= 1,
            radix >= 2,
    ;
    if rest < state.scale {
        let above: nat = state.above * radix;
        let below: nat = state.below * radix;
        let next = Remainder { rest, above, below, ..state };
        lemma_pow_adds(radix as int, raised, 1);
        lemma_pow1(radix as int);
        let start = spec_start(bits, kind);
        let up = pow(radix as int, raised);
        assert(start.rest * (up * radix) == (start.rest * up) * radix) by (nonlinear_arith);
        assert(start.above * (up * radix) == (start.above * up) * radix) by (nonlinear_arith);
        assert(start.below * (up * radix) == (start.below * up) * radix) by (nonlinear_arith);
        assert(below >= 1) by (nonlinear_arith)
            requires
                below == state.below * radix,
                state.below >= 1,
                radix >= 2,
        ;
        let rest = lemma_scale_down(next, bits, kind, raised + 1, scaled, radix, point - 1);
        rest + 1
    } else {
        0
    }
}

/// Adding one to the last of some digits adds one to the number they
/// denote. The digits stay digits of the radix. Where there is one digit
/// more than before, the last digit is a zero.
pub proof fn lemma_increment(digits: Seq<u8>, radix: nat)
    requires
        2 <= radix <= 36,
        spec_all_digits(digits, radix),
    ensures
        spec_values(spec_increment(digits, radix), radix) == spec_values(digits, radix) + 1,
        spec_all_digits(spec_increment(digits, radix), radix),
        spec_increment(digits, radix).len() == digits.len() || spec_increment(
            digits,
            radix,
        ).len() == digits.len() + 1,
        digits.len() >= 1 && spec_increment(digits, radix).len() > digits.len()
            ==> spec_increment(digits, radix).last() == 0,
    decreases digits.len(),
{
    let raised = spec_increment(digits, radix);
    if digits.len() == 0 {
        assert(raised.drop_last().len() == 0);
        assert(spec_values(raised.drop_last(), radix) == 0);
        assert(spec_values(raised, radix) == 0 * radix + 1);
    } else if digits.last() + 1 < radix {
        let next = digits.drop_last().push((digits.last() + 1) as u8);
        assert(next.drop_last() == digits.drop_last());
        assert forall|i: int| 0 <= i < next.len() implies #[trigger] next[i] < radix by {
            if i < digits.len() - 1 {
                assert(next[i] == digits[i]);
            }
        }
    } else {
        let inner = spec_increment(digits.drop_last(), radix);
        assert forall|i: int| 0 <= i < digits.drop_last().len() implies #[trigger] digits.drop_last()[i]
            < radix by {
            assert(digits.drop_last()[i] == digits[i]);
        }
        lemma_increment(digits.drop_last(), radix);
        assert(inner.push(0u8).drop_last() == inner);
        assert(digits.last() == radix - 1);
        let low = spec_values(digits.drop_last(), radix);
        assert((low + 1) * radix + 0 == low * radix + (radix - 1) + 1) by (nonlinear_arith);
        assert forall|i: int| 0 <= i < raised.len() implies #[trigger] raised[i] < radix by {
            if i < inner.len() {
                assert(raised[i] == inner[i]);
            }
        }
    }
}

/// The digits made from a remainder that belongs to a float denote a
/// number that reads back as the float.
pub proof fn lemma_generate_reads_back(
    state: Remainder,
    bits: int,
    kind: FloatKind,
    made: Seq<u8>,
    raised: nat,
    scaled: nat,
    radix: nat,
)
    requires
        0 < bits < kind.spec_inf_bits(),
        2 <= radix <= 36,
        state.below >= 1,
        spec_all_digits(made, radix),
        spec_tracks(state, bits, kind, spec_values(made, radix), raised, scaled, radix),
    ensures
        ({
            let out = spec_generate(state, radix, bits % 2 == 0, made);
            let steps = spec_steps(state, radix, bits % 2 == 0, made.len());
            &&& steps > made.len()
            &&& spec_all_digits(out, radix)
            &&& out.len() == steps || out.len() == steps + 1
            &&& out.len() > steps ==> out.last() == 0
            &&& spec_is_nearest(
                bits,
                spec_values(out, radix) * pow2(spec_unit_shift(kind)) * pow(radix as int, scaled),
                pow(radix as int, (raised + steps - made.len()) as nat),
                kind,
            )
        }),
    decreases state.scale - state.below,
{
    let even = bits % 2 == 0;
    let digit = (state.rest * radix) / state.scale;
    let rest = (state.rest * radix) % state.scale;
    let above: nat = state.above * radix;
    let below: nat = state.below * radix;
    let digits = made.push(digit as u8);
    let next = Remainder { rest, scale: state.scale, above, below };
    let q = spec_values(made, radix);
    let start = spec_start(bits, kind);
    let up = pow(radix as int, raised);
    lemma_fundamental_div_mod((state.rest * radix) as int, state.scale as int);
    assert(0 <= digit < radix) by (nonlinear_arith)
        requires
            state.rest * radix == state.scale * digit + rest,
            0 <= rest < state.scale,
            state.rest < state.scale,
            state.rest >= 0,
            radix >= 2,
    ;
    assert(digits.drop_last() == made);
    assert(spec_values(digits, radix) == q * radix + digit);
    assert forall|i: int| 0 <= i < digits.len() implies #[trigger] digits[i] < radix by {
        if i < made.len() {
            assert(digits[i] == made[i]);
        }
    }
    lemma_pow_adds(radix as int, raised, 1);
    lemma_pow1(radix as int);
    assert(start.rest * (up * radix) == (q * radix + digit) * state.scale + rest)
        by (nonlinear_arith)
        requires
            start.rest * up == q * state.scale + state.rest,
            state.rest * radix == state.scale * digit + rest,
    ;
    assert(start.above * (up * radix) == (start.above * up) * radix) by (nonlinear_arith);
    assert(start.below * (up * radix) == (start.below * up) * radix) by (nonlinear_arith);
    assert(spec_tracks(next, bits, kind, spec_values(digits, radix), raised + 1, scaled, radix));
    assert(below > state.below) by (nonlinear_arith)
        requires
            below == state.below * radix,
            state.below >= 1,
            radix >= 2,
    ;
    lemma_candidates_read_back(
        next,
        bits,
        kind,
        spec_values(digits, radix),
        raised + 1,
        scaled,
        radix,
    );
    lemma_increment(digits, radix);
    let low = spec_low_ok(rest, below, even);
    let high = spec_high_ok(rest, state.scale, above, even);
    if !low && !high {
        assert(below < state.scale);
        lemma_generate_reads_back(next, bits, kind, digits, raised + 1, scaled, radix);
    }
}

/// Two products of a number, a unit and powers are the same where the
/// powers multiply to the same.
proof fn lemma_same_products(number: int, unit: int, a: int, b: int, c: int, d: int)
    requires
        a * b == c * d,
    ensures
        (number * unit * a) * b == (number * c * unit) * d,
{
    assert((number * unit * a) * b == (number * unit) * (a * b)) by (nonlinear_arith);
    assert((number * c * unit) * d == (number * unit) * (c * d)) by (nonlinear_arith);
}

/// The shortest digits that are made for a float denote, with the power
/// of the radix that belongs to them, a number that reads back as the
/// float. This holds wherever the decimal point is put among the digits:
/// with `fraction_digits` of them behind the point, the exponent is the
/// one that gives the number back.
pub proof fn lemma_shortest_reads_back(
    bits: int,
    kind: FloatKind,
    radix: nat,
    fraction_digits: nat,
    exponent: int,
)
    requires
        0 < bits < kind.spec_inf_bits(),
        2 <= radix <= 36,
        exponent - fraction_digits == spec_shortest(bits, kind, radix).1 - spec_shortest(
            bits,
            kind,
            radix,
        ).0.len(),
    ensures
        spec_is_nearest(
            bits,
            spec_numerator(
                spec_values(spec_shortest(bits, kind, radix).0, radix),
                exponent,
                radix as int,
                kind,
            ),
            spec_denominator(fraction_digits, exponent, radix as int, radix as int),
            kind,
        ),
        crate::parse_float::spec_rounded(
            spec_values(spec_shortest(bits, kind, radix).0, radix),
            fraction_digits,
            exponent,
            radix as int,
            radix as int,
            kind,
        ) == bits,
        spec_all_digits(spec_shortest(bits, kind, radix).0, radix),
        spec_shortest(bits, kind, radix).0.len() >= 1,
{
    let even = bits % 2 == 0;
    let r = radix as int;
    let start = spec_start(bits, kind);
    let unit = pow2(spec_unit_shift(kind)) as int;
    lemma_pow0(r);
    lemma_pow2_pos(kind.spec_exponent_bias() as nat);
    lemma_pow2_pos(spec_unit_shift(kind));
    lemma_scaled_increases(0, bits, kind);
    lemma_scaled_step(bits - 1, kind);
    assert(spec_scaled(0, kind) == 0) by {
        assert(0 * pow2(crate::nearest::spec_shift(0, kind)) == 0);
    }
    assert(start.rest >= 2);
    assert(start.below >= 1);
    assert(spec_raised(start, bits, kind, 0, 0, radix));
    let scaled = lemma_scale_up(start, bits, kind, 0, 0, radix, 0);
    let up = spec_scale_up(start, radix, 0);
    assert(up.0.rest == start.rest && up.0.below == start.below);
    let raised = lemma_scale_down(up.0, bits, kind, 0, scaled, radix, up.1);
    let down = spec_scale_down(up.0, radix, up.1);
    let state = down.0;
    let none = Seq::<u8>::empty();
    assert(spec_values(none, radix) == 0);
    assert(0 * state.scale == 0);
    assert(spec_tracks(state, bits, kind, 0, raised, scaled, radix));
    lemma_generate_reads_back(state, bits, kind, none, raised, scaled, radix);
    let out = spec_generate(state, radix, even, none);
    let steps = spec_steps(state, radix, even, 0);
    let shortest = spec_shortest(bits, kind, radix);
    let digits = shortest.0;
    let number = spec_values(digits, radix) as int;
    // The number over the unit that digit making found it in.
    let found_num = spec_values(out, radix) * unit * pow(r, scaled);
    let found_den = pow(r, raised + steps);
    let up_part = crate::parse_float::spec_positive_part(exponent);
    let down_part = crate::parse_float::spec_positive_part(-exponent);
    let num = spec_numerator(number as nat, exponent, r, kind);
    let den = spec_denominator(fraction_digits, exponent, r, r);
    crate::parse_float::lemma_denominator_positive(fraction_digits, exponent, r, r);
    lemma_pow_positive(r, raised + steps);
    lemma_pow_adds(r, fraction_digits, down_part);
    lemma_pow_adds(r, up_part, raised + steps);
    let a = pow(r, scaled);
    let b = pow(r, fraction_digits + down_part);
    let c = pow(r, up_part);
    let d = pow(r, raised + steps);
    if out.len() > steps {
        assert(out.drop_last() == digits);
        assert(spec_values(out, radix) == number * radix + 0);
        lemma_pow_adds(r, 1, scaled);
        lemma_pow1(r);
        lemma_pow_adds(r, 1 + scaled, fraction_digits + down_part);
        assert(1 + scaled + fraction_digits + down_part == up_part + raised + steps);
        assert((r * a) * b == c * d);
        assert((number * r) * unit * a == number * unit * (r * a)) by (nonlinear_arith);
        lemma_same_products(number, unit, r * a, b, c, d);
        assert forall|i: int| 0 <= i < digits.len() implies #[trigger] digits[i] < radix by {
            assert(digits[i] == out[i]);
        }
    } else {
        assert(out == digits);
        lemma_pow_adds(r, scaled, fraction_digits + down_part);
        assert(scaled + fraction_digits + down_part == up_part + raised + steps);
        assert(a * b == c * d);
        lemma_same_products(number, unit, a, b, c, d);
    }
    lemma_nearest_same_ratio(bits, found_num, found_den, num, den, kind);
    crate::parse_float::lemma_rounded_is_nearest(
        number as nat,
        fraction_digits,
        exponent,
        r,
        r,
        kind,
    );
}

} // verus!
