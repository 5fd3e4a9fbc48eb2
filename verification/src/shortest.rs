//! The shortest digits that denote a float.
//!
//! Every number that lies nearer to a float than to the middle between it
//! and one of its neighbours reads back as that float. Of these numbers
//! the writer gives the one with the fewest digits, and of several such
//! the one nearest to the float. The digits are made one by one, with
//! exact arithmetic on natural numbers of any size.

use crate::bigint::{Bigint, Order};
use crate::float::FloatKind;
use crate::nearest::{lemma_scaled_increases, spec_scaled, spec_ulp};
use vstd::arithmetic::div_mod::lemma_fundamental_div_mod_converse;
use vstd::arithmetic::power2::{lemma_pow2_pos, pow2};
use vstd::prelude::*;

verus! {

/// What is known while digits are made: the numerator `rest` of what is
/// still to be written, over the denominator `scale`, and the distances
/// `above` and `below` to the ends of the range of numbers that read back
/// as the float, over the same denominator.
pub struct Remainder {
    pub rest: nat,
    pub scale: nat,
    pub above: nat,
    pub below: nat,
}

/// Whether the number with the digits made so far, which lies below the
/// float by `rest`, reads back as the float.
pub open spec fn spec_low_ok(rest: nat, below: nat, even: bool) -> bool {
    rest < below || (even && rest == below)
}

/// Whether the number one unit in the last place above the digits made so
/// far reads back as the float.
pub open spec fn spec_high_ok(rest: nat, scale: nat, above: nat, even: bool) -> bool {
    rest + above > scale || (even && rest + above == scale)
}

/// Whether each of `digits` is a digit of `radix`.
pub open spec fn spec_all_digits(digits: Seq<u8>, radix: nat) -> bool {
    forall|i: int| 0 <= i < digits.len() ==> #[trigger] digits[i] < radix
}

/// The digits with one added to the last of them, a digit of `radix - 1`
/// becoming 0 with one carried to the digit before. Where all digits
/// carry, a 1 is put before them.
pub open spec fn spec_increment(digits: Seq<u8>, radix: nat) -> Seq<u8>
    decreases digits.len(),
{
    if digits.len() == 0 {
        seq![1u8]
    } else if digits.last() + 1 < radix {
        digits.drop_last().push((digits.last() + 1) as u8)
    } else {
        spec_increment(digits.drop_last(), radix).push(0u8)
    }
}

/// The digits that are made from a remainder on, behind the digits
/// `made`. Each step takes the next digit off the remainder. It is the
/// last where the number made so far, or the number one unit in the last
/// place above it, reads back as the float; of the two the one that reads
/// back is taken, and the nearer one where both do, with an even last
/// digit where they are equally near.
pub open spec fn spec_generate(
    state: Remainder,
    radix: nat,
    even: bool,
    made: Seq<u8>,
) -> Seq<u8>
    decreases state.scale - state.below,
{
    let digit = (state.rest * radix) / state.scale;
    let rest = (state.rest * radix) % state.scale;
    let above = state.above * radix;
    let below = state.below * radix;
    let digits = made.push(digit as u8);
    let low = spec_low_ok(rest, below, even);
    let high = spec_high_ok(rest, state.scale, above, even);
    if !low && !high {
        if state.below < below < state.scale {
            spec_generate(Remainder { rest, scale: state.scale, above, below }, radix, even, digits)
        } else {
            digits
        }
    } else if low && !high {
        digits
    } else if high && !low {
        spec_increment(digits, radix)
    } else if 2 * rest < state.scale || (2 * rest == state.scale && digit % 2 == 0) {
        digits
    } else {
        spec_increment(digits, radix)
    }
}

/// The remainder before any digit is made, for the float with these
/// bits: twice the float over twice the unit, with the distances to the
/// floats beside it.
pub open spec fn spec_start(bits: int, kind: FloatKind) -> Remainder {
    Remainder {
        rest: (2 * spec_scaled(bits, kind)) as nat,
        scale: pow2((kind.spec_exponent_bias()) as nat),
        above: spec_ulp(bits, kind) as nat,
        below: spec_ulp(bits - 1, kind) as nat,
    }
}

/// Raises the denominator by powers of the radix until the remainder is
/// below one, and counts the powers.
pub open spec fn spec_scale_up(state: Remainder, radix: nat, point: int) -> (Remainder, int)
    decreases
        (if state.rest >= state.scale {
            state.rest - state.scale + 1
        } else {
            0
        }),
{
    let scale: nat = state.scale * radix;
    if state.rest >= state.scale && state.scale < scale {
        spec_scale_up(Remainder { scale, ..state }, radix, point + 1)
    } else {
        (state, point)
    }
}

/// Raises the numerators by powers of the radix until the first digit of
/// the remainder is above zero, and counts the powers down.
pub open spec fn spec_scale_down(state: Remainder, radix: nat, point: int) -> (Remainder, int)
    decreases state.scale - state.rest,
{
    let rest: nat = state.rest * radix;
    if rest < state.scale && state.rest < rest {
        spec_scale_down(
            Remainder {
                rest,
                above: state.above * radix,
                below: state.below * radix,
                ..state
            },
            radix,
            point - 1,
        )
    } else {
        (state, point)
    }
}

/// How many digits are made from a remainder on before the last one.
pub open spec fn spec_steps(state: Remainder, radix: nat, even: bool, count: nat) -> nat
    decreases state.scale - state.below,
{
    let rest = (state.rest * radix) % state.scale;
    let above = state.above * radix;
    let below = state.below * radix;
    let low = spec_low_ok(rest, below, even);
    let high = spec_high_ok(rest, state.scale, above, even);
    if !low && !high && state.below < below < state.scale {
        spec_steps(Remainder { rest, scale: state.scale, above, below }, radix, even, count + 1)
    } else {
        count + 1
    }
}

/// The shortest digits that read back as the float with these bits, as
/// digits of `radix`, and the power of the radix that the digits, read as
/// a fraction below one, are scaled by.
pub open spec fn spec_shortest(bits: int, kind: FloatKind, radix: nat) -> (Seq<u8>, int) {
    let up = spec_scale_up(spec_start(bits, kind), radix, 0);
    let down = spec_scale_down(up.0, radix, up.1);
    let made = spec_generate(down.0, radix, bits % 2 == 0, Seq::empty());
    let steps = spec_steps(down.0, radix, bits % 2 == 0, 0);
    if made.len() > steps {
        (made.drop_last(), down.1 + 1)
    } else {
        (made, down.1)
    }
}

/// Adds one to the last of `digits`, carrying where a digit is the
/// largest of the radix.
pub fn increment_digits(digits: Vec<u8>, radix: u32) -> (r: Vec<u8>)
    requires
        2 <= radix <= 36,
    ensures
        r@ == spec_increment(digits@, radix as nat),
        spec_all_digits(digits@, radix as nat) ==> spec_all_digits(r@, radix as nat),
        r@.len() >= 1,
{
    let mut digits = digits;
    let ghost whole = digits@;
    let count = digits.len();
    let mut zeros: usize = 0;
    assert(spec_increment(digits@, radix as nat) + crate::buffer::spec_repeat(0, 0)
        == spec_increment(digits@, radix as nat));
    // Take the digits that carry off the end.
    while digits.len() > 0 && digits[digits.len() - 1] as u32 + 1 >= radix
        invariant
            2 <= radix <= 36,
            zeros + digits@.len() == count,
            spec_all_digits(whole, radix as nat) ==> spec_all_digits(digits@, radix as nat),
            spec_increment(whole, radix as nat) == spec_increment(digits@, radix as nat)
                + crate::buffer::spec_repeat(0, zeros as int),
        decreases digits@.len(),
    {
        proof {
            let inner = spec_increment(digits@.drop_last(), radix as nat);
            assert(inner.push(0u8) + crate::buffer::spec_repeat(0, zeros as int) == inner
                + crate::buffer::spec_repeat(0, zeros + 1));
        }
        digits.pop();
        zeros = zeros + 1;
    }
    let n = digits.len();
    let ghost short = digits@;
    if n == 0 {
        digits.push(1);
    } else {
        let last = digits[n - 1];
        digits.pop();
        digits.push(last + 1);
    }
    assert(spec_all_digits(whole, radix as nat) ==> spec_all_digits(digits@, radix as nat)) by {
        if spec_all_digits(whole, radix as nat) {
            assert forall|j: int| 0 <= j < digits@.len() implies #[trigger] digits@[j] < radix by {
                if j < n - 1 {
                    assert(digits@[j] == short[j]);
                }
            }
        }
    }
    let mut i: usize = 0;
    while i < zeros
        invariant
            i <= zeros,
            2 <= radix <= 36,
            digits@.len() >= 1,
            spec_all_digits(whole, radix as nat) ==> spec_all_digits(digits@, radix as nat),
            spec_increment(whole, radix as nat) == digits@ + crate::buffer::spec_repeat(
                0,
                zeros - i,
            ),
        decreases zeros - i,
    {
        proof {
            assert(digits@.push(0u8) + crate::buffer::spec_repeat(0, zeros - i - 1) == digits@
                + crate::buffer::spec_repeat(0, zeros - i));
        }
        digits.push(0);
        i = i + 1;
    }
    assert(digits@ + crate::buffer::spec_repeat(0, 0) == digits@);
    digits
}

/// Takes the next digit off a remainder: how often `scale` goes into
/// `rest * radix`, and what is left.
fn next_digit(rest: &Bigint, scale: &Bigint, radix: u32) -> (r: (u8, Bigint))
    requires
        rest.spec_wf(),
        scale.spec_wf(),
        2 <= radix <= 36,
        rest.spec_value() < scale.spec_value(),
    ensures
        r.1.spec_wf(),
        r.0 == (rest.spec_value() * radix) / (scale.spec_value() as int),
        r.1.spec_value() == (rest.spec_value() * radix) % (scale.spec_value() as int),
        r.0 < radix,
        r.1.spec_value() < scale.spec_value(),
{
    let ghost total = rest.spec_value() * radix;
    let ghost s = scale.spec_value();
    let mut left = rest.mul_scalar(radix as u64);
    let mut digit: u8 = 0;
    assert(total < s * radix) by (nonlinear_arith)
        requires
            total == rest.spec_value() * radix,
            rest.spec_value() < s,
            radix > 0,
    ;
    assert(0 * s == 0);
    loop
        invariant_except_break
            left.spec_wf(),
            scale.spec_wf(),
            s == scale.spec_value(),
            s > 0,
            total == digit * s + left.spec_value(),
            total < s * radix,
            2 <= radix <= 36,
            digit < radix,
        ensures
            left.spec_wf(),
            total == digit * s + left.spec_value(),
            left.spec_value() < s,
            digit < radix,
        decreases left.spec_value(),
    {
        match left.compare(scale) {
            Order::Less => {
                break ;
            },
            _ => {
                assert((digit + 1) * s == digit * s + s) by (nonlinear_arith);
                assert(digit + 1 < radix) by (nonlinear_arith)
                    requires
                        total == digit * s + left.spec_value(),
                        left.spec_value() >= s,
                        total < s * radix,
                        s > 0,
                ;
                left = left.sub(scale);
                digit = digit + 1;
            },
        }
    }
    proof {
        assert(total == s * digit + left.spec_value()) by (nonlinear_arith)
            requires
                total == digit * s + left.spec_value(),
        ;
        lemma_fundamental_div_mod_converse(
            total as int,
            s as int,
            digit as int,
            left.spec_value() as int,
        );
    }
    (digit, left)
}

/// Makes the digits from a remainder on.
fn generate(
    first: &Bigint,
    scale: &Bigint,
    upper: &Bigint,
    lower: &Bigint,
    radix: u32,
    even: bool,
) -> (r: (Vec<u8>, usize))
    requires
        first.spec_wf(),
        scale.spec_wf(),
        upper.spec_wf(),
        lower.spec_wf(),
        2 <= radix <= 36,
        first.spec_value() < scale.spec_value(),
        lower.spec_value() >= 1,
    ensures
        r.0@ == spec_generate(
            Remainder {
                rest: first.spec_value(),
                scale: scale.spec_value(),
                above: upper.spec_value(),
                below: lower.spec_value(),
            },
            radix as nat,
            even,
            Seq::empty(),
        ),
        r.1 == spec_steps(
            Remainder {
                rest: first.spec_value(),
                scale: scale.spec_value(),
                above: upper.spec_value(),
                below: lower.spec_value(),
            },
            radix as nat,
            even,
            0,
        ),
        spec_all_digits(r.0@, radix as nat),
        r.0@.len() >= 1,
        r.1 >= 1,
{
    let ghost whole = spec_generate(
        Remainder {
            rest: first.spec_value(),
            scale: scale.spec_value(),
            above: upper.spec_value(),
            below: lower.spec_value(),
        },
        radix as nat,
        even,
        Seq::empty(),
    );
    let ghost steps = spec_steps(
        Remainder {
            rest: first.spec_value(),
            scale: scale.spec_value(),
            above: upper.spec_value(),
            below: lower.spec_value(),
        },
        radix as nat,
        even,
        0,
    );
    let mut rest = first.duplicate();
    let mut above = upper.duplicate();
    let mut below = lower.duplicate();
    let mut digits: Vec<u8> = Vec::new();
    loop
        invariant
            spec_all_digits(digits@, radix as nat),
            steps == spec_steps(
                Remainder {
                    rest: first.spec_value(),
                    scale: scale.spec_value(),
                    above: upper.spec_value(),
                    below: lower.spec_value(),
                },
                radix as nat,
                even,
                0,
            ),
            steps == spec_steps(
                Remainder {
                    rest: rest.spec_value(),
                    scale: scale.spec_value(),
                    above: above.spec_value(),
                    below: below.spec_value(),
                },
                radix as nat,
                even,
                digits@.len(),
            ),
            rest.spec_wf(),
            scale.spec_wf(),
            above.spec_wf(),
            below.spec_wf(),
            2 <= radix <= 36,
            rest.spec_value() < scale.spec_value(),
            below.spec_value() >= 1,
            whole == spec_generate(
                Remainder {
                    rest: first.spec_value(),
                    scale: scale.spec_value(),
                    above: upper.spec_value(),
                    below: lower.spec_value(),
                },
                radix as nat,
                even,
                Seq::empty(),
            ),
            whole == spec_generate(
                Remainder {
                    rest: rest.spec_value(),
                    scale: scale.spec_value(),
                    above: above.spec_value(),
                    below: below.spec_value(),
                },
                radix as nat,
                even,
                digits@,
            ),
        decreases scale.spec_value() - below.spec_value(),
    {
        let ghost before = below.spec_value();
        let ghost state = Remainder {
            rest: rest.spec_value(),
            scale: scale.spec_value(),
            above: above.spec_value(),
            below: below.spec_value(),
        };
        let ghost made = digits@;
        let (digit, left) = next_digit(&rest, scale, radix);
        let up = above.mul_scalar(radix as u64);
        let down = below.mul_scalar(radix as u64);
        assert(before * radix > before) by (nonlinear_arith)
            requires
                before >= 1,
                radix >= 2,
        ;
        let low = match left.compare(&down) {
            Order::Less => true,
            Order::Equal => even,
            Order::Greater => false,
        };
        let sum = left.add(&up);
        let high = match sum.compare(scale) {
            Order::Greater => true,
            Order::Equal => even,
            Order::Less => false,
        };
        digits.push(digit);
        proof {
            assert((state.rest * (radix as nat)) / state.scale == digit);
            assert((state.rest * (radix as nat)) % state.scale == left.spec_value());
            assert(state.above * (radix as nat) == up.spec_value());
            assert(state.below * (radix as nat) == down.spec_value());
            assert(digits@ == made.push(digit));
            assert(low == spec_low_ok(left.spec_value(), down.spec_value(), even));
            assert(high == spec_high_ok(
                left.spec_value(),
                state.scale,
                up.spec_value(),
                even,
            ));
            assert(whole == spec_generate(state, radix as nat, even, made));
            assert(steps == spec_steps(state, radix as nat, even, made.len()));
        }
        let count = digits.len();
        if !low && !high {
            assert(state.below < down.spec_value() < state.scale);
            rest = left;
            above = up;
            below = down;
        } else if low && !high {
            return (digits, count);
        } else if high && !low {
            return (increment_digits(digits, radix), count);
        } else {
            let twice = left.mul_scalar(2);
            let nearer_low = match twice.compare(scale) {
                Order::Less => true,
                Order::Equal => digit % 2 == 0,
                Order::Greater => false,
            };
            if nearer_low {
                return (digits, count);
            } else {
                return (increment_digits(digits, radix), count);
            }
        }
    }
}

/// Makes the shortest digits that read back as the float with these
/// bits, which must be above zero and below infinity. Gives the digits of
/// `radix` and the power of the radix that the digits, read as a fraction
/// below one, are scaled by.
pub fn shortest_digits(bits: u64, kind: FloatKind, radix: u32) -> (r: (Vec<u8>, i32))
    requires
        0 < bits < kind.spec_inf_bits(),
        2 <= radix <= 36,
    ensures
        r.0@ == spec_shortest(bits as int, kind, radix as nat).0,
        r.1 == spec_shortest(bits as int, kind, radix as nat).1,
        spec_all_digits(r.0@, radix as nat),
        r.0@.len() >= 1,
        -2106 <= r.1 <= 2100,
{
    let hidden = kind.hidden_bit();
    let biased = bits / hidden;
    let fraction = bits % hidden;
    let mantissa = if biased == 0 {
        fraction
    } else {
        hidden + fraction
    };
    let shift: u32 = if biased <= 1 {
        0
    } else {
        (biased - 1) as u32
    };
    let before = (bits - 1) / hidden;
    let shift_before: u32 = if before <= 1 {
        0
    } else {
        (before - 1) as u32
    };
    let bias: u32 = match kind {
        FloatKind::Binary32 => 150,
        FloatKind::Binary64 => 1075,
    };
    let one = Bigint::from_u64(1);
    let first = Bigint::from_u64(mantissa).shl(shift).mul_scalar(2);
    let start = one.shl(bias);
    let upper = one.shl(shift);
    let lower = one.shl(shift_before);
    let ghost begin = spec_start(bits as int, kind);
    let ghost r = radix as nat;
    proof {
        lemma_pow2_pos(shift as nat);
        lemma_pow2_pos(shift_before as nat);
        lemma_pow2_pos(bias as nat);
        assert(1 * pow2(shift as nat) == pow2(shift as nat));
        assert(1 * pow2(shift_before as nat) == pow2(shift_before as nat));
        assert(1 * pow2(bias as nat) == pow2(bias as nat));
        assert(first.spec_value() == begin.rest) by (nonlinear_arith)
            requires
                first.spec_value() == mantissa * pow2(shift as nat) * 2,
                begin.rest == 2 * (mantissa * pow2(shift as nat)),
        ;
        lemma_scaled_increases(bits as int, kind.spec_inf_bits(), kind);
        crate::parse_float::lemma_scaled_infinity(kind);
        lemma_scaled_increases(0, bits as int, kind);
        assert(spec_scaled(0, kind) == 0) by {
            assert(0 * pow2(crate::nearest::spec_shift(0, kind)) == 0);
        }
        vstd::arithmetic::power2::lemma_pow2_unfold(2099);
        crate::parse_float::lemma_pow2_increases(278, 2099);
        vstd::arithmetic::power2::lemma_pow2_unfold(278);
        vstd::arithmetic::power2::lemma2_to64();
    }
    assert(begin.rest < pow2(2099));
    assert(begin.rest >= 2);
    // Raise the denominator until the remainder is below one.
    let mut scale = start;
    let mut point: i32 = 0;
    loop
        invariant_except_break
            scale.spec_wf(),
            first.spec_wf(),
            2 <= radix <= 36,
            r == radix,
            first.spec_value() == begin.rest,
            begin.rest < pow2(2099),
            0 <= point <= 2099,
            pow2(point as nat) <= scale.spec_value(),
            scale.spec_value() == begin.scale || scale.spec_value() <= begin.rest * r,
            scale.spec_value() >= 1,
            spec_scale_up(begin, r, 0) == spec_scale_up(
                Remainder { scale: scale.spec_value(), ..begin },
                r,
                point as int,
            ),
        ensures
            scale.spec_wf(),
            -1 <= point <= 2099,
            first.spec_value() < scale.spec_value(),
            scale.spec_value() == begin.scale || scale.spec_value() <= begin.rest * r,
            spec_scale_up(begin, r, 0) == (
                Remainder { scale: scale.spec_value(), ..begin },
                point as int,
            ),
        decreases
            (if begin.rest >= scale.spec_value() {
                begin.rest - scale.spec_value() + 1
            } else {
                0
            }),
    {
        match first.compare(&scale) {
            Order::Less => {
                break ;
            },
            _ => {
                proof {
                    let s = scale.spec_value();
                    assert(s < s * r && s * r <= begin.rest * r && 2 * s <= s * r)
                        by (nonlinear_arith)
                        requires
                            s >= 1,
                            r >= 2,
                            s <= begin.rest,
                    ;
                    vstd::arithmetic::power2::lemma_pow2_unfold((point + 1) as nat);
                    if point >= 2099 {
                        crate::parse_float::lemma_pow2_increases(2099, point as nat);
                    }
                }
                scale = scale.mul_scalar(radix as u64);
                point = point + 1;
            },
        }
    }
    let ghost up = spec_scale_up(begin, r, 0);
    // Raise the numerators until the first digit is above zero.
    let mut rest = first;
    let mut above = upper;
    let mut below = lower;
    let mut lowered: i32 = 0;
    proof {
        vstd::arithmetic::power2::lemma2_to64();
        assert(begin.scale == pow2(bias as nat));
        crate::parse_float::lemma_pow2_increases(bias as nat, 1075);
        crate::parse_float::lemma_pow2_increases(1075, 2099);
        vstd::arithmetic::power2::lemma_pow2_adds(2099, 6);
        assert(begin.rest * r < pow2(2099) * 64) by (nonlinear_arith)
            requires
                begin.rest < pow2(2099),
                r <= 36,
        ;
        assert(up.0.scale < pow2(2105));
    }
    loop
        invariant_except_break
            rest.spec_wf(),
            above.spec_wf(),
            below.spec_wf(),
            scale.spec_wf(),
            2 <= radix <= 36,
            r == radix,
            scale.spec_value() == up.0.scale,
            up.0.scale < pow2(2105),
            0 <= lowered <= 2105,
            pow2(lowered as nat) <= rest.spec_value(),
            below.spec_value() >= 1,
            rest.spec_value() < scale.spec_value(),
            spec_scale_down(up.0, r, up.1) == spec_scale_down(
                Remainder {
                    rest: rest.spec_value(),
                    scale: scale.spec_value(),
                    above: above.spec_value(),
                    below: below.spec_value(),
                },
                r,
                up.1 - lowered,
            ),
        ensures
            rest.spec_wf(),
            above.spec_wf(),
            below.spec_wf(),
            0 <= lowered <= 2105,
            below.spec_value() >= 1,
            rest.spec_value() < scale.spec_value(),
            spec_scale_down(up.0, r, up.1) == (
                Remainder {
                    rest: rest.spec_value(),
                    scale: scale.spec_value(),
                    above: above.spec_value(),
                    below: below.spec_value(),
                },
                up.1 - lowered,
            ),
        decreases scale.spec_value() - rest.spec_value(),
    {
        let raised = rest.mul_scalar(radix as u64);
        match raised.compare(&scale) {
            Order::Less => {
                proof {
                    let v = rest.spec_value();
                    let b = below.spec_value();
                    lemma_pow2_pos(lowered as nat);
                    assert(v < v * r && 2 * v <= v * r && b * r >= 1) by (nonlinear_arith)
                        requires
                            v >= 1,
                            b >= 1,
                            r >= 2,
                    ;
                    vstd::arithmetic::power2::lemma_pow2_unfold((lowered + 1) as nat);
                    if lowered >= 2105 {
                        crate::parse_float::lemma_pow2_increases(2105, lowered as nat);
                    }
                }
                above = above.mul_scalar(radix as u64);
                below = below.mul_scalar(radix as u64);
                rest = raised;
                lowered = lowered + 1;
            },
            _ => {
                break ;
            },
        }
    }
    let (made, steps) = generate(&rest, &scale, &above, &below, radix, bits % 2 == 0);
    if made.len() > steps {
        let mut made = made;
        made.pop();
        (made, point - lowered + 1)
    } else {
        (made, point - lowered)
    }
}

} // verus!
