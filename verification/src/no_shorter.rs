//! No number of fewer digits than those written for a float reads back as
//! that float.

use crate::decimal::spec_values;
use crate::float::FloatKind;
use crate::nearest::{lemma_scaled_increases, lemma_scaled_step, spec_is_nearest, spec_scaled};
use crate::parse_float::{
    lemma_denominator_positive, spec_denominator, spec_numerator, spec_positive_part,
    spec_unit_shift,
};
use crate::reads_back::{
    lemma_nearest_same_ratio, lemma_scale_down, lemma_scale_up, spec_raised, spec_tracks,
};
use crate::shortest::{
    spec_all_digits, spec_high_ok, spec_low_ok, spec_scale_down, spec_scale_up, spec_shortest,
    spec_start, spec_steps, Remainder,
};
use vstd::arithmetic::div_mod::lemma_fundamental_div_mod;
use vstd::arithmetic::power::{lemma_pow0, lemma_pow1, lemma_pow_adds, lemma_pow_positive, pow};
use vstd::arithmetic::power2::{lemma_pow2_pos, lemma_pow2_unfold, pow2};
use vstd::prelude::*;

verus! {

/// A number of at most `count` digits, scaled by a power of the radix,
/// does not lie between a number of exactly `count` digits and the next
/// one, scaled by another power of the radix: it is at most the one or at
/// least the other.
pub proof fn lemma_grid(number: int, made: int, count: nat, radix: int, own: nat, other: nat)
    requires
        radix >= 2,
        count >= 1,
        1 <= number < pow(radix, count),
        pow(radix, (count - 1) as nat) <= made,
    ensures
        number * pow(radix, own) <= made * pow(radix, other) || number * pow(radix, own) >= (made
            + 1) * pow(radix, other),
{
    lemma_pow_positive(radix, own);
    lemma_pow_positive(radix, other);
    let mine = pow(radix, own);
    let theirs = pow(radix, other);
    if own >= other {
        let more = pow(radix, (own - other) as nat);
        lemma_pow_adds(radix, (own - other) as nat, other);
        lemma_pow_positive(radix, (own - other) as nat);
        let k = number * more;
        assert(number * mine == k * theirs) by (nonlinear_arith)
            requires
                mine == more * theirs,
                k == number * more,
        ;
        if k <= made {
            assert(k * theirs <= made * theirs) by (nonlinear_arith)
                requires
                    k <= made,
                    theirs > 0,
            ;
        } else {
            assert(k * theirs >= (made + 1) * theirs) by (nonlinear_arith)
                requires
                    k >= made + 1,
                    theirs > 0,
            ;
        }
    } else {
        // The number lies below the smallest number of `count` digits.
        let less = pow(radix, (other - own) as nat);
        lemma_pow_adds(radix, (other - own) as nat, own);
        lemma_pow_adds(radix, 1, (other - own - 1) as nat);
        lemma_pow1(radix);
        lemma_pow_positive(radix, (other - own - 1) as nat);
        lemma_pow_adds(radix, (count - 1) as nat, 1);
        lemma_pow_positive(radix, (count - 1) as nat);
        let first = pow(radix, (count - 1) as nat);
        let rest = pow(radix, (other - own - 1) as nat);
        assert(number * mine <= made * theirs) by (nonlinear_arith)
            requires
                number < first * radix,
                first <= made,
                theirs == (radix * rest) * mine,
                rest >= 1,
                mine > 0,
                number >= 1,
                first >= 1,
        ;
    }
}

/// What lies at or below a number that fails the test for the lower end
/// does not read back as the float, and neither does what lies at or above
/// a number that fails the test for the upper end.
pub proof fn lemma_outside(
    state: Remainder,
    bits: int,
    kind: FloatKind,
    made: nat,
    raised: nat,
    scaled: nat,
    radix: nat,
    num: int,
    den: int,
)
    requires
        0 < bits < kind.spec_inf_bits(),
        radix >= 2,
        den > 0,
        spec_tracks(state, bits, kind, made, raised, scaled, radix),
    ensures
        !spec_low_ok(state.rest, state.below, bits % 2 == 0) && num * pow(radix as int, raised)
            <= (made * pow2(spec_unit_shift(kind)) * pow(radix as int, scaled)) * den
            ==> !spec_is_nearest(bits, num, den, kind),
        !spec_high_ok(state.rest, state.scale, state.above, bits % 2 == 0) && num * pow(
            radix as int,
            raised,
        ) >= ((made + 1) * pow2(spec_unit_shift(kind)) * pow(radix as int, scaled)) * den
            ==> !spec_is_nearest(bits, num, den, kind),
{
    let start = spec_start(bits, kind);
    let up = pow(radix as int, raised);
    let down = pow(radix as int, scaled);
    let unit = pow2(spec_unit_shift(kind)) as int;
    let v = spec_scaled(bits, kind);
    let under = spec_scaled(bits - 1, kind);
    let over = spec_scaled(bits + 1, kind);
    lemma_scaled_step(bits, kind);
    lemma_scaled_step(bits - 1, kind);
    lemma_pow_positive(radix as int, raised);
    lemma_pow_positive(radix as int, scaled);
    lemma_pow2_pos(spec_unit_shift(kind));
    lemma_pow2_unfold((spec_unit_shift(kind) + 1) as nat);
    let r = state.rest as int;
    let q = made as int;
    let low = q * unit * down;
    let high = (q + 1) * unit * down;
    assert(2 * low == 2 * v * up - r) by (nonlinear_arith)
        requires
            low == q * unit * down,
            2 * v * up == q * (2 * unit * down) + r,
    ;
    assert(2 * high == 2 * v * up - r + 2 * unit * down) by (nonlinear_arith)
        requires
            high == (q + 1) * unit * down,
            2 * v * up == q * (2 * unit * down) + r,
    ;
    assert((under + v) * up == 2 * v * up - (v - under) * up) by (nonlinear_arith);
    assert((v + over) * up == 2 * v * up + (over - v) * up) by (nonlinear_arith);
    assert(state.scale == 2 * unit * down) by (nonlinear_arith)
        requires
            state.scale == (2 * unit) * down,
    ;
    let below = (under + v) * den;
    let above = (v + over) * den;
    if !spec_low_ok(state.rest, state.below, bits % 2 == 0) && num * up <= low * den {
        // Twice the low number is at most the lower end.
        assert(2 * low <= (under + v) * up);
        assert((2 * num) * up <= below * up) by (nonlinear_arith)
            requires
                num * up <= low * den,
                2 * low <= (under + v) * up,
                below == (under + v) * den,
                den > 0,
        ;
        assert(2 * num <= below) by (nonlinear_arith)
            requires
                (2 * num) * up <= below * up,
                up > 0,
        ;
        if 2 * num == below {
            assert(2 * low == (under + v) * up) by (nonlinear_arith)
                requires
                    num * up <= low * den,
                    2 * low <= (under + v) * up,
                    2 * num == (under + v) * den,
                    den > 0,
                    up > 0,
            ;
        }
    }
    if !spec_high_ok(state.rest, state.scale, state.above, bits % 2 == 0) && num * up >= high
        * den {
        assert(2 * high >= (v + over) * up);
        assert((2 * num) * up >= above * up) by (nonlinear_arith)
            requires
                num * up >= high * den,
                2 * high >= (v + over) * up,
                above == (v + over) * den,
                den > 0,
        ;
        assert(2 * num >= above) by (nonlinear_arith)
            requires
                (2 * num) * up >= above * up,
                up > 0,
        ;
        if 2 * num == above {
            assert(2 * high == (v + over) * up) by (nonlinear_arith)
                requires
                    num * up >= high * den,
                    2 * high >= (v + over) * up,
                    2 * num == (v + over) * den,
                    den > 0,
                    up > 0,
            ;
        }
    }
}

/// The number `number * radix^exponent` as a ratio in the unit of the
/// smallest float, and whether it reads back as the float with these
/// bits.
pub open spec fn spec_reads_back(bits: int, kind: FloatKind, number: nat, exponent: int, radix: nat) -> bool {
    spec_is_nearest(
        bits,
        spec_numerator(number, exponent, radix as int, kind),
        spec_denominator(0, exponent, radix as int, radix as int),
        kind,
    )
}

/// While digits are made and neither the number made nor the next one
/// reads back as the float, no number of as many digits or fewer does.
pub proof fn lemma_generate_no_shorter(
    state: Remainder,
    bits: int,
    kind: FloatKind,
    made: Seq<u8>,
    raised: nat,
    scaled: nat,
    radix: nat,
    number: nat,
    exponent: int,
)
    requires
        0 < bits < kind.spec_inf_bits(),
        2 <= radix <= 36,
        state.below >= 1,
        spec_all_digits(made, radix),
        spec_tracks(state, bits, kind, spec_values(made, radix), raised, scaled, radix),
        made.len() == 0 ==> state.scale <= state.rest * radix,
        made.len() >= 1 ==> pow(radix as int, (made.len() - 1) as nat) <= spec_values(made, radix),
        spec_values(made, radix) < pow(radix as int, made.len()),
        number >= 1,
        number < pow(radix as int, made.len()) ==> !spec_reads_back(
            bits,
            kind,
            number,
            exponent,
            radix,
        ),
        number < pow(
            radix as int,
            (spec_steps(state, radix, bits % 2 == 0, made.len()) - 1) as nat,
        ),
    ensures
        !spec_reads_back(bits, kind, number, exponent, radix),
    decreases state.scale - state.below,
{
    let even = bits % 2 == 0;
    let r = radix as int;
    let digit = (state.rest * radix) / state.scale;
    let rest = (state.rest * radix) % state.scale;
    let above: nat = state.above * radix;
    let below: nat = state.below * radix;
    let digits = made.push(digit as u8);
    let next = Remainder { rest, scale: state.scale, above, below };
    let q = spec_values(made, radix);
    let start = spec_start(bits, kind);
    let up = pow(r, raised);
    let count = made.len();
    lemma_fundamental_div_mod((state.rest * radix) as int, state.scale as int);
    assert(0 <= digit < radix) by (nonlinear_arith)
        requires
            state.rest * radix == state.scale * digit + rest,
            0 <= rest < state.scale,
            state.rest < state.scale,
            state.rest >= 0,
            radix >= 2,
    ;
    assert(digits.drop_last() == made);
    let taken = spec_values(digits, radix);
    assert(taken == q * radix + digit);
    assert forall|i: int| 0 <= i < digits.len() implies #[trigger] digits[i] < radix by {
        if i < made.len() {
            assert(digits[i] == made[i]);
        }
    }
    lemma_pow_adds(r, raised, 1);
    lemma_pow_adds(r, count, 1);
    lemma_pow1(r);
    lemma_pow0(r);
    assert(start.rest * (up * radix) == (q * radix + digit) * state.scale + rest)
        by (nonlinear_arith)
        requires
            start.rest * up == q * state.scale + state.rest,
            state.rest * radix == state.scale * digit + rest,
    ;
    assert(start.above * (up * radix) == (start.above * up) * radix) by (nonlinear_arith);
    assert(start.below * (up * radix) == (start.below * up) * radix) by (nonlinear_arith);
    assert(spec_tracks(next, bits, kind, taken, raised + 1, scaled, radix));
    assert(below > state.below) by (nonlinear_arith)
        requires
            below == state.below * radix,
            state.below >= 1,
            radix >= 2,
    ;
    // The number taken has exactly one digit more.
    let size = pow(r, count);
    assert(taken < size * radix) by (nonlinear_arith)
        requires
            taken == q * radix + digit,
            q < size,
            digit < radix,
    ;
    if count == 0 {
        assert(digit >= 1) by (nonlinear_arith)
            requires
                state.rest * radix == state.scale * digit + rest,
                rest < state.scale,
                state.scale <= state.rest * radix,
                state.scale >= 1,
        ;
        assert(q == 0);
        assert(taken >= 1);
    } else {
        lemma_pow_adds(r, (count - 1) as nat, 1);
        let first = pow(r, (count - 1) as nat);
        assert(taken >= first * radix) by (nonlinear_arith)
            requires
                taken == q * radix + digit,
                q >= first,
                digit >= 0,
                radix >= 2,
        ;
    }
    assert(pow(r, count) <= taken);
    let low = spec_low_ok(rest, below, even);
    let high = spec_high_ok(rest, state.scale, above, even);
    if !low && !high && state.below < below < state.scale {
        if number < pow(r, count + 1) {
            // Neither the number taken nor the next one reads back, and the
            // number does not lie between the two.
            let own = spec_positive_part(exponent) + raised + 1;
            let other = scaled + spec_positive_part(-exponent);
            let unit = pow2(spec_unit_shift(kind)) as int;
            let num = spec_numerator(number, exponent, r, kind);
            let den = spec_denominator(0, exponent, r, r);
            lemma_denominator_positive(0, exponent, r, r);
            lemma_pow2_pos(spec_unit_shift(kind));
            lemma_grid(number as int, taken as int, count + 1, r, own, other);
            lemma_pow_adds(r, spec_positive_part(exponent), raised + 1);
            lemma_pow_adds(r, scaled, spec_positive_part(-exponent));
            let a = pow(r, spec_positive_part(exponent));
            let b = pow(r, raised + 1);
            let c = pow(r, scaled);
            let d = pow(r, spec_positive_part(-exponent));
            assert(den == d) by {
                assert(1 * d == d);
            }
            assert(num * b == (number * (a * b)) * unit) by (nonlinear_arith)
                requires
                    num == number * a * unit,
            ;
            assert((taken * unit * c) * den == (taken * (c * d)) * unit) by (nonlinear_arith)
                requires
                    den == d,
            ;
            assert(((taken + 1) * unit * c) * den == ((taken + 1) * (c * d)) * unit)
                by (nonlinear_arith)
                requires
                    den == d,
            ;
            if number * (a * b) <= taken * (c * d) {
                assert((number * (a * b)) * unit <= (taken * (c * d)) * unit) by (nonlinear_arith)
                    requires
                        number * (a * b) <= taken * (c * d),
                        unit > 0,
                ;
            } else {
                assert((number * (a * b)) * unit >= ((taken + 1) * (c * d)) * unit)
                    by (nonlinear_arith)
                    requires
                        number * (a * b) >= (taken + 1) * (c * d),
                        unit > 0,
                ;
            }
            crate::no_shorter::lemma_outside(
                next,
                bits,
                kind,
                taken,
                raised + 1,
                scaled,
                radix,
                num,
                den,
            );
        }
        lemma_generate_no_shorter(
            next,
            bits,
            kind,
            digits,
            raised + 1,
            scaled,
            radix,
            number,
            exponent,
        );
    }
}

/// No number of fewer digits than the shortest digits made for a float
/// reads back as that float, whatever power of the radix it is scaled by
/// and wherever its point stands.
pub proof fn lemma_no_shorter(
    bits: int,
    kind: FloatKind,
    radix: nat,
    number: nat,
    fraction_digits: nat,
    exponent: int,
)
    requires
        0 < bits < kind.spec_inf_bits(),
        2 <= radix <= 36,
        1 <= number < pow(radix as int, (spec_shortest(bits, kind, radix).0.len() - 1) as nat),
    ensures
        !spec_is_nearest(
            bits,
            spec_numerator(number, exponent, radix as int, kind),
            spec_denominator(fraction_digits, exponent, radix as int, radix as int),
            kind,
        ),
{
    let even = bits % 2 == 0;
    let r = radix as int;
    let start = spec_start(bits, kind);
    lemma_pow0(r);
    lemma_pow2_pos(kind.spec_exponent_bias() as nat);
    lemma_scaled_increases(0, bits, kind);
    lemma_scaled_step(bits - 1, kind);
    assert(spec_scaled(0, kind) == 0) by {
        assert(0 * pow2(crate::nearest::spec_shift(0, kind)) == 0);
    }
    assert(spec_raised(start, bits, kind, 0, 0, radix));
    let scaled = lemma_scale_up(start, bits, kind, 0, 0, radix, 0);
    let up = spec_scale_up(start, radix, 0);
    assert(up.0.rest == start.rest && up.0.below == start.below);
    let raised = lemma_scale_down(up.0, bits, kind, 0, scaled, radix, up.1);
    let state = spec_scale_down(up.0, radix, up.1).0;
    let none = Seq::<u8>::empty();
    assert(spec_values(none, radix) == 0);
    assert(0 * state.scale == 0);
    assert(spec_tracks(state, bits, kind, 0, raised, scaled, radix));
    crate::reads_back::lemma_generate_reads_back(state, bits, kind, none, raised, scaled, radix);
    let steps = spec_steps(state, radix, even, 0);
    assert(spec_shortest(bits, kind, radix).0.len() == steps);
    let shift = exponent - fraction_digits;
    lemma_generate_no_shorter(state, bits, kind, none, raised, scaled, radix, number, shift);
    // The same number with its point elsewhere.
    let num = spec_numerator(number, exponent, r, kind);
    let den = spec_denominator(fraction_digits, exponent, r, r);
    let plain_num = spec_numerator(number, shift, r, kind);
    let plain_den = spec_denominator(0, shift, r, r);
    if spec_is_nearest(bits, num, den, kind) {
        lemma_denominator_positive(fraction_digits, exponent, r, r);
        lemma_denominator_positive(0, shift, r, r);
        let unit = pow2(spec_unit_shift(kind)) as int;
        let a = pow(r, spec_positive_part(exponent));
        let b = pow(r, spec_positive_part(-shift));
        let c = pow(r, spec_positive_part(shift));
        let d = pow(r, fraction_digits);
        let e = pow(r, spec_positive_part(-exponent));
        lemma_pow_adds(r, spec_positive_part(exponent), spec_positive_part(-shift));
        lemma_pow_adds(r, fraction_digits, spec_positive_part(-exponent));
        lemma_pow_adds(
            r,
            spec_positive_part(shift),
            fraction_digits + spec_positive_part(-exponent),
        );
        assert(spec_positive_part(exponent) + spec_positive_part(-shift) == spec_positive_part(
            shift,
        ) + fraction_digits + spec_positive_part(-exponent));
        assert(a * b == c * (d * e));
        assert(plain_den == b) by {
            assert(1 * b == b);
        }
        assert(num * plain_den == plain_num * den) by (nonlinear_arith)
            requires
                num == number * a * unit,
                plain_den == b,
                plain_num == number * c * unit,
                den == d * e,
                a * b == c * (d * e),
        ;
        lemma_nearest_same_ratio(bits, num, den, plain_num, plain_den, kind);
    }
}

} // verus!
