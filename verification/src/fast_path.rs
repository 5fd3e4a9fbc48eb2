//! The float nearest to a ratio of two machine integers, found without a
//! big integer: what the numbers of most texts need.

use crate::bigint::{
    lemma_base_pow, lemma_limbs_push, lemma_limbs_top, spec_base, spec_limbs, spec_order, Bigint,
    Order,
};
use crate::float::FloatKind;
use crate::nearest::{
    lemma_nearest_decided, lemma_nearest_infinity, spec_is_nearest, spec_scaled, spec_shift,
    spec_ulp,
};
use crate::parse_float::{lemma_pow2_increases, spec_unit_shift};
use vstd::arithmetic::power::{lemma_pow0, lemma_pow1, lemma_pow_adds, lemma_pow_increases, pow};
use vstd::arithmetic::power2::{
    lemma2_to64, lemma_pow2_adds, lemma_pow2_pos, lemma_pow2_unfold, pow2,
};
use vstd::prelude::*;

verus! {

/// The value of `2^127` and of `2^128`.
pub proof fn lemma_pow2_128()
    ensures
        pow2(127) == 0x8000_0000_0000_0000_0000_0000_0000_0000,
        pow2(128) == 0x1_0000_0000_0000_0000_0000_0000_0000_0000,
        pow2(64) == 0x1_0000_0000_0000_0000,
{
    lemma2_to64();
    vstd::arithmetic::power2::lemma2_to64_rest();
    lemma_pow2_adds(64, 63);
    lemma_pow2_adds(64, 64);
}

/// Two to the power `k`.
pub fn pow2_u128(k: u32) -> (power: u128)
    requires
        k < 128,
    ensures
        power == pow2(k as nat),
{
    let mut power: u128 = 1;
    let mut i: u32 = 0;
    proof {
        lemma2_to64();
    }
    while i < k
        invariant
            i <= k < 128,
            power == pow2(i as nat),
        decreases k - i,
    {
        proof {
            lemma_pow2_unfold((i + 1) as nat);
            lemma_pow2_increases((i + 1) as nat, 127);
            lemma_pow2_128();
        }
        power = power * 2;
        i = i + 1;
    }
    power
}

/// How two numbers compare is how they compare when both are scaled by
/// the same power of two.
pub proof fn lemma_order_scaled(x: int, y: int, shift: nat)
    ensures
        spec_order(x * pow2(shift), y * pow2(shift)) == spec_order(x, y),
{
    lemma_pow2_pos(shift);
    let p = pow2(shift) as int;
    if x < y {
        assert(x * p < y * p) by (nonlinear_arith)
            requires
                x < y,
                p > 0,
        ;
    } else if x > y {
        assert(x * p > y * p) by (nonlinear_arith)
            requires
                x > y,
                p > 0,
        ;
    }
}

/// The number `a * 2^k`, unless it is beyond 128 bits.
pub fn raise(a: u128, k: u32) -> (raised: Option<u128>)
    ensures
        raised == (if a * pow2(k as nat) <= u128::MAX {
            Some((a * pow2(k as nat)) as u128)
        } else {
            None
        }),
{
    proof {
        lemma_pow2_pos(k as nat);
        lemma_pow2_128();
    }
    if a == 0 {
        assert(0 * pow2(k as nat) == 0);
        Some(0)
    } else if k >= 128 {
        proof {
            lemma_pow2_increases(128, k as nat);
            assert(a * pow2(k as nat) >= pow2(k as nat)) by (nonlinear_arith)
                requires
                    a >= 1,
                    pow2(k as nat) > 0,
            ;
        }
        None
    } else {
        a.checked_mul(pow2_u128(k))
    }
}

/// Compares `a * 2^a_shift` with `b * 2^b_shift`.
pub fn compare_scaled(a: u128, a_shift: u32, b: u128, b_shift: u32) -> (order: Order)
    ensures
        order == spec_order(a * pow2(a_shift as nat), b * pow2(b_shift as nat)),
{
    if a_shift >= b_shift {
        let k = a_shift - b_shift;
        proof {
            lemma_pow2_adds(k as nat, b_shift as nat);
            lemma_order_scaled(a * pow2(k as nat), b as int, b_shift as nat);
            assert(a * pow2(a_shift as nat) == (a * pow2(k as nat)) * pow2(b_shift as nat))
                by (nonlinear_arith)
                requires
                    pow2(a_shift as nat) == pow2(k as nat) * pow2(b_shift as nat),
            ;
        }
        match raise(a, k) {
            None => Order::Greater,
            Some(raised) => if raised < b {
                Order::Less
            } else if raised == b {
                Order::Equal
            } else {
                Order::Greater
            },
        }
    } else {
        let k = b_shift - a_shift;
        proof {
            lemma_pow2_adds(k as nat, a_shift as nat);
            lemma_order_scaled(a as int, b * pow2(k as nat), a_shift as nat);
            assert(b * pow2(b_shift as nat) == (b * pow2(k as nat)) * pow2(a_shift as nat))
                by (nonlinear_arith)
                requires
                    pow2(b_shift as nat) == pow2(k as nat) * pow2(a_shift as nat),
            ;
        }
        match raise(b, k) {
            None => Order::Less,
            Some(raised) => if a < raised {
                Order::Less
            } else if a == raised {
                Order::Equal
            } else {
                Order::Greater
            },
        }
    }
}

/// The exponent of the smallest float above zero, without its sign.
pub fn unit_shift(kind: FloatKind) -> (shift: u32)
    ensures
        shift == spec_unit_shift(kind),
{
    match kind {
        FloatKind::Binary32 => 149,
        FloatKind::Binary64 => 1074,
    }
}

/// How the float with these bits compares with `num / den`; where
/// `middle` is set, how the middle between that float and the next one
/// does.
pub fn compare_float(bits: u64, num: u64, den: u64, kind: FloatKind, middle: bool) -> (order: Order)
    requires
        0 <= bits <= kind.spec_inf_bits(),
    ensures
        !middle ==> order == spec_order(
            spec_scaled(bits as int, kind) * den,
            num * pow2(spec_unit_shift(kind)),
        ),
        middle ==> order == spec_order(
            (2 * spec_scaled(bits as int, kind) + spec_ulp(bits as int, kind)) * den,
            2 * (num * pow2(spec_unit_shift(kind))),
        ),
{
    let hidden = kind.hidden_bit();
    let biased = bits / hidden;
    let fraction = bits % hidden;
    let mantissa = if biased == 0 {
        fraction
    } else {
        hidden + fraction
    };
    let shift: u32 = if biased <= 1 {
        0
    } else {
        (biased - 1) as u32
    };
    let factor: u128 = if middle {
        2 * (mantissa as u128) + 1
    } else {
        mantissa as u128
    };
    let target: u128 = if middle {
        2 * (num as u128)
    } else {
        num as u128
    };
    proof {
        let scale = pow2(shift as nat) as int;
        let unit = pow2(spec_unit_shift(kind)) as int;
        let d = den as int;
        lemma_pow2_pos(shift as nat);
        assert(factor * d <= 0x80_0000_0000_0000 * 0x1_0000_0000_0000_0000) by (nonlinear_arith)
            requires
                0 <= factor <= 0x80_0000_0000_0000,
                0 <= d <= 0x1_0000_0000_0000_0000,
        ;
        assert((factor * d) * scale == (factor * scale) * d) by (nonlinear_arith);
        assert((2 * mantissa + 1) * scale == 2 * (mantissa * scale) + scale) by (nonlinear_arith);
        assert((2 * num) * unit == 2 * (num * unit)) by (nonlinear_arith);
    }
    compare_scaled(factor * (den as u128), shift, target, unit_shift(kind))
}

/// The bits of the float nearest to `num / den`. The bits of infinity are
/// given where the ratio is nearer to the power of two above all floats
/// than to the largest float.
pub fn nearest_small(num: u64, den: u64, kind: FloatKind) -> (bits: u64)
    requires
        den > 0,
    ensures
        spec_is_nearest(bits as int, num * pow2(spec_unit_shift(kind)), den as int, kind),
{
    let ghost n = num * pow2(spec_unit_shift(kind));
    let ghost d = den as int;
    let inf = kind.inf_bits();
    let mut low: u64 = 0;
    let mut high: u64 = inf + 1;
    proof {
        lemma_pow2_pos(spec_unit_shift(kind));
        assert(n >= 0) by (nonlinear_arith)
            requires
                n == num * pow2(spec_unit_shift(kind)),
                num >= 0,
                pow2(spec_unit_shift(kind)) > 0,
        ;
        assert(spec_scaled(0, kind) == 0) by {
            assert(0 * pow2(spec_shift(0, kind)) == 0);
        }
        assert(spec_scaled(0, kind) * d == 0);
    }
    while high - low > 1
        invariant
            0 <= low < high <= inf + 1,
            inf == kind.spec_inf_bits(),
            n == num * pow2(spec_unit_shift(kind)),
            d == den,
            spec_scaled(low as int, kind) * d <= n,
            high <= inf ==> n < spec_scaled(high as int, kind) * d,
        decreases high - low,
    {
        let middle = low + (high - low) / 2;
        match compare_float(middle, num, den, kind, false) {
            Order::Greater => {
                high = middle;
            },
            _ => {
                low = middle;
            },
        }
    }
    if low == inf {
        proof {
            lemma_nearest_infinity(n, d, kind);
        }
        return inf;
    }
    let order = compare_float(low, num, den, kind, true);
    proof {
        lemma_nearest_decided(low as int, order, n, d, kind);
    }
    match order {
        Order::Greater => low,
        Order::Less => low + 1,
        Order::Equal => if low % 2 == 0 {
            low
        } else {
            low + 1
        },
    }
}

/// The power `base^count`, unless it is beyond 64 bits.
pub fn checked_pow(base: u32, count: u128) -> (power: Option<u64>)
    requires
        base >= 2,
    ensures
        power == (if pow(base as int, count as nat) <= u64::MAX {
            Some(pow(base as int, count as nat) as u64)
        } else {
            None
        }),
{
    let mut power: u64 = 1;
    let mut i: u128 = 0;
    proof {
        lemma_pow0(base as int);
    }
    while i < count
        invariant
            i <= count,
            base >= 2,
            power == pow(base as int, i as nat),
        decreases count - i,
    {
        proof {
            lemma_pow_adds(base as int, i as nat, 1);
            lemma_pow1(base as int);
            lemma_pow_increases(base as nat, (i + 1) as nat, count as nat);
        }
        match power.checked_mul(base as u64) {
            None => {
                return None;
            },
            Some(next) => {
                power = next;
            },
        }
        i = i + 1;
    }
    Some(power)
}

impl Bigint {
    /// The number as a machine integer, unless it is beyond 64 bits.
    pub fn to_u64(&self) -> (small: Option<u64>)
        requires
            self.spec_wf(),
        ensures
            small == (if self.spec_value() <= u64::MAX {
                Some(self.spec_value() as u64)
            } else {
                None
            }),
    {
        let count = self.limbs.len();
        proof {
            let none = Seq::<u32>::empty();
            lemma_pow0(spec_base());
            lemma_base_pow(0);
            lemma_base_pow(1);
            assert(spec_limbs(none) == 0);
            if count >= 1 {
                let low = self.limbs@[0];
                lemma_limbs_push(none, low);
                assert(none.push(low) =~= self.limbs@.subrange(0, 1));
                if count >= 2 {
                    let high = self.limbs@[1];
                    lemma_limbs_push(none.push(low), high);
                    assert(none.push(low).push(high) =~= self.limbs@.subrange(0, 2));
                }
            }
            assert(self.limbs@.subrange(0, count as int) =~= self.limbs@);
            if count > 2 {
                lemma_limbs_top(self.limbs@);
                lemma_pow_increases(spec_base() as nat, 2, (count - 1) as nat);
            }
        }
        if count == 0 {
            Some(0)
        } else if count == 1 {
            Some(self.limbs[0] as u64)
        } else if count == 2 {
            Some(self.limbs[0] as u64 + 0x1_0000_0000 * (self.limbs[1] as u64))
        } else {
            None
        }
    }
}

} // verus!
