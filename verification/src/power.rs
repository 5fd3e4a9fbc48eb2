//! Products of big integers with each other and with powers of a radix,
//! the powers made up of the large powers of its prime factors.

use crate::bigint::{spec_limbs, Bigint};
use crate::large_powers::{
    get_large_powers, lemma_limbs_value, spec_has_large_powers, spec_is_power_table,
    spec_large_power_count, spec_limbs_value,
};
use vstd::arithmetic::power::{lemma_pow0, lemma_pow1, lemma_pow_adds, lemma_pow_distributes, pow};
use vstd::arithmetic::power2::{lemma2_to64, lemma_pow2_unfold, pow2};
use vstd::prelude::*;

verus! {

impl Bigint {
    /// The product of the number and the number that `limbs` hold, lowest
    /// limb first.
    pub fn mul(&self, limbs: &[u32]) -> (r: Bigint)
        requires
            self.spec_wf(),
        ensures
            r.spec_wf(),
            r.spec_value() == self.spec_value() * spec_limbs(limbs@),
    {
        let mut r = Bigint::zero();
        let mut i = limbs.len();
        proof {
            assert(self.spec_value() * 0 == 0);
        }
        while i > 0
            invariant
                0 <= i <= limbs.len(),
                self.spec_wf(),
                r.spec_wf(),
                r.spec_value() == self.spec_value() * spec_limbs_value(limbs@, i as int),
            decreases i,
        {
            i = i - 1;
            let term = self.mul_scalar(limbs[i] as u64);
            proof {
                lemma2_to64();
                let value = self.spec_value() as int;
                let limb = limbs@[i as int] as int;
                let above = spec_limbs_value(limbs@, i + 1) as int;
                assert(value * above * 0x1_0000_0000 + value * limb == value * (limb
                    + 0x1_0000_0000 * above)) by (nonlinear_arith);
            }
            r = r.shl(32).add(&term);
        }
        proof {
            lemma_limbs_value(limbs@);
        }
        r
    }

    /// The product of the number and `2^bits`.
    pub fn shl_wide(&self, bits: u128) -> (r: Bigint)
        requires
            self.spec_wf(),
        ensures
            r.spec_wf(),
            r.spec_value() == self.spec_value() * pow2(bits as nat),
    {
        let mut r = self.duplicate();
        let mut left = bits;
        proof {
            lemma2_to64();
            assert(self.spec_value() * 1 == self.spec_value());
        }
        while left > 0
            invariant
                left <= bits,
                r.spec_wf(),
                r.spec_value() == self.spec_value() * pow2((bits - left) as nat),
            decreases left,
        {
            let step: u32 = if left > 0x4000_0000 {
                0x4000_0000
            } else {
                left as u32
            };
            proof {
                let done = (bits - left) as nat;
                vstd::arithmetic::power2::lemma_pow2_adds(done, step as nat);
                let value = self.spec_value() as int;
                let a = pow2(done) as int;
                let b = pow2(step as nat) as int;
                assert(value * a * b == value * (a * b)) by (nonlinear_arith);
            }
            r = r.shl(step);
            left = left - step as u128;
        }
        r
    }

    /// The product of the number and `prime^count`, for an odd prime below
    /// 32. The power is made up of the large powers of the prime: of the
    /// powers `prime^(2^i)` those that the bits of `count` select, and the
    /// largest of them again for what of `count` lies beyond them.
    pub fn mul_large_power(&self, prime: u32, count: u128) -> (r: Bigint)
        requires
            self.spec_wf(),
            spec_has_large_powers(prime),
        ensures
            r.spec_wf(),
            r.spec_value() == self.spec_value() * pow(prime as int, count as nat),
    {
        let table = get_large_powers(prime);
        let last = table.len() - 1;
        let mut r = self.duplicate();
        let mut left = count;
        let mut i: usize = 0;
        let ghost p = prime as int;
        let ghost whole = self.spec_value() * pow(p, count as nat);
        proof {
            lemma2_to64();
            assert(left * pow2(0) == count);
        }
        while left > 0
            invariant
                0 <= i <= last,
                last == table@.len() - 1,
                p == prime,
                spec_is_power_table(table@, p, spec_large_power_count(prime)),
                r.spec_wf(),
                whole == self.spec_value() * pow(p, count as nat),
                r.spec_value() * pow(p, (left * pow2(i as nat)) as nat) == whole,
            decreases left + last - i,
        {
            let ghost weight = pow2(i as nat);
            let ghost before = r.spec_value() as int;
            let entry: &[u32] = table[i];
            proof {
                lemma_limbs_value(entry@);
                assert(spec_limbs(entry@) == pow(p, weight));
            }
            if i < last {
                let bit = left % 2;
                let half = left / 2;
                proof {
                    lemma_pow2_unfold((i + 1) as nat);
                    let twice = pow2((i + 1) as nat);
                    assert(left * weight == half * twice + bit * weight) by (nonlinear_arith)
                        requires
                            left == 2 * half + bit,
                            twice == 2 * weight,
                    ;
                    assert(half * twice >= 0 && bit * weight >= 0) by (nonlinear_arith)
                        requires
                            half >= 0,
                            bit >= 0,
                            twice >= 0,
                            weight >= 0,
                    ;
                    lemma_pow_adds(p, (half * twice) as nat, (bit * weight) as nat);
                    let rest = pow(p, (half * twice) as nat);
                    let here = pow(p, (bit * weight) as nat);
                    if bit == 1 {
                        assert(bit * weight == weight) by (nonlinear_arith)
                            requires
                                bit == 1,
                        ;
                    } else {
                        assert(bit * weight == 0) by (nonlinear_arith)
                            requires
                                bit == 0,
                        ;
                        lemma_pow0(p);
                    }
                    assert(before * (rest * here) == (before * here) * rest) by (nonlinear_arith);
                    assert(before * 1 == before);
                }
                if bit == 1 {
                    r = r.mul(entry);
                }
                left = half;
                i = i + 1;
            } else {
                proof {
                    assert(left * weight == (left - 1) * weight + weight) by (nonlinear_arith);
                    assert((left - 1) * weight >= 0) by (nonlinear_arith)
                        requires
                            left >= 1,
                            weight >= 0,
                    ;
                    lemma_pow_adds(p, ((left - 1) * weight) as nat, weight);
                    let rest = pow(p, ((left - 1) * weight) as nat);
                    let here = pow(p, weight);
                    assert(before * (rest * here) == (before * here) * rest) by (nonlinear_arith);
                }
                r = r.mul(entry);
                left = left - 1;
            }
        }
        proof {
            assert(0 * pow2(i as nat) == 0);
            lemma_pow0(p);
            assert(r.spec_value() * 1 == r.spec_value());
        }
        r
    }

    /// The product of the number and `radix^count`. The radix is taken
    /// apart into its prime factors: each 2 among them shifts the number,
    /// and each odd one multiplies it by large powers of that prime.
    pub fn mul_radix_pow(&self, radix: u32, count: u128) -> (r: Bigint)
        requires
            self.spec_wf(),
            2 <= radix <= 36,
        ensures
            r.spec_wf(),
            r.spec_value() == self.spec_value() * pow(radix as int, count as nat),
    {
        let mut r = self.duplicate();
        let mut rest = radix;
        let ghost whole = self.spec_value() * pow(radix as int, count as nat);
        while rest % 2 == 0
            invariant
                1 <= rest <= 36,
                r.spec_wf(),
                r.spec_value() * pow(rest as int, count as nat) == whole,
            decreases rest,
        {
            proof {
                lemma_split_power(r.spec_value() as int, 2, (rest / 2) as int, count as nat);
                vstd::arithmetic::power2::lemma_pow2(count as nat);
            }
            r = r.shl_wide(count);
            rest = rest / 2;
        }
        while rest % 3 == 0
            invariant
                1 <= rest <= 36,
                rest % 2 != 0,
                r.spec_wf(),
                r.spec_value() * pow(rest as int, count as nat) == whole,
            decreases rest,
        {
            proof {
                lemma_split_power(r.spec_value() as int, 3, (rest / 3) as int, count as nat);
            }
            r = r.mul_large_power(3, count);
            rest = rest / 3;
        }
        while rest % 5 == 0
            invariant
                1 <= rest <= 36,
                rest % 2 != 0,
                rest % 3 != 0,
                r.spec_wf(),
                r.spec_value() * pow(rest as int, count as nat) == whole,
            decreases rest,
        {
            proof {
                lemma_split_power(r.spec_value() as int, 5, (rest / 5) as int, count as nat);
            }
            r = r.mul_large_power(5, count);
            rest = rest / 5;
        }
        if rest == 1 {
            proof {
                lemma_one_power(count as nat);
                assert(r.spec_value() * 1 == r.spec_value());
            }
            r
        } else {
            r.mul_large_power(rest, count)
        }
    }
}

/// A product with the power of a product of two factors is a product with
/// the powers of both.
pub proof fn lemma_split_power(value: int, factor: int, rest: int, count: nat)
    ensures
        value * pow(factor * rest, count) == (value * pow(factor, count)) * pow(rest, count),
{
    lemma_pow_distributes(factor, rest, count);
    let a = pow(factor, count);
    let b = pow(rest, count);
    assert(value * (a * b) == (value * a) * b) by (nonlinear_arith);
}

/// Every power of 1 is 1.
pub proof fn lemma_one_power(count: nat)
    ensures
        pow(1, count) == 1,
    decreases count,
{
    if count == 0 {
        lemma_pow0(1);
    } else {
        lemma_one_power((count - 1) as nat);
        lemma_pow_adds(1, 1, (count - 1) as nat);
        lemma_pow1(1);
    }
}

} // verus!
