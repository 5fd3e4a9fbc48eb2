//! Natural numbers of any size, as limbs of 32 bits with the lowest first.

use vstd::arithmetic::power::{lemma_pow0, lemma_pow_positive, pow};
use vstd::arithmetic::power2::{lemma2_to64, pow2};
use vstd::prelude::*;

verus! {

/// The base of the limbs, `2^32`.
pub open spec fn spec_base() -> int {
    0x1_0000_0000
}

/// The number that `limbs` hold, lowest limb first.
pub open spec fn spec_limbs(limbs: Seq<u32>) -> nat
    decreases limbs.len(),
{
    if limbs.len() == 0 {
        0
    } else {
        (spec_limbs(limbs.drop_last()) + limbs.last() * pow(spec_base(), (limbs.len() - 1) as nat)) as nat
    }
}

/// The next power of the base.
pub proof fn lemma_base_pow(i: nat)
    ensures
        pow(spec_base(), i + 1) == spec_base() * pow(spec_base(), i),
        pow(spec_base(), i) > 0,
{
    vstd::arithmetic::power::lemma_pow_adds(spec_base(), 1, i);
    vstd::arithmetic::power::lemma_pow1(spec_base());
    lemma_pow_positive(spec_base(), i);
}

/// Limbs hold a number below the power of the base that their count gives.
pub proof fn lemma_limbs_bound(limbs: Seq<u32>)
    ensures
        spec_limbs(limbs) < pow(spec_base(), limbs.len()),
    decreases limbs.len(),
{
    if limbs.len() == 0 {
        lemma_pow0(spec_base());
    } else {
        let low = limbs.drop_last();
        lemma_limbs_bound(low);
        lemma_base_pow(low.len());
        let weight = pow(spec_base(), low.len());
        assert(limbs.last() * weight + weight <= spec_base() * weight) by (nonlinear_arith)
            requires
                limbs.last() < spec_base(),
                weight > 0,
        ;
    }
}

/// Limbs with a highest limb above zero hold a number that is not below
/// the weight of that limb.
pub proof fn lemma_limbs_top(limbs: Seq<u32>)
    requires
        limbs.len() > 0,
        limbs.last() != 0,
    ensures
        spec_limbs(limbs) >= pow(spec_base(), (limbs.len() - 1) as nat),
{
    let weight = pow(spec_base(), (limbs.len() - 1) as nat);
    lemma_base_pow((limbs.len() - 1) as nat);
    assert(limbs.last() * weight >= weight) by (nonlinear_arith)
        requires
            limbs.last() >= 1,
            weight > 0,
    ;
}

/// One more limb at the top adds its value times the weight of its place.
pub proof fn lemma_limbs_push(limbs: Seq<u32>, limb: u32)
    ensures
        spec_limbs(limbs.push(limb)) == spec_limbs(limbs) + limb * pow(spec_base(), limbs.len()),
{
    assert(limbs.push(limb).drop_last() == limbs);
    lemma_base_pow(limbs.len());
    assert(limb * pow(spec_base(), limbs.len()) >= 0) by (nonlinear_arith)
        requires
            pow(spec_base(), limbs.len()) > 0,
            limb >= 0,
    ;
}

/// Of two rows of limbs of one length, the one with the larger top limb
/// holds the larger number.
pub proof fn lemma_limbs_top_decides(a: Seq<u32>, b: Seq<u32>)
    requires
        a.len() == b.len(),
        a.len() > 0,
        a.last() > b.last(),
    ensures
        spec_limbs(a) > spec_limbs(b),
{
    let weight = pow(spec_base(), (a.len() - 1) as nat);
    lemma_base_pow((a.len() - 1) as nat);
    lemma_limbs_bound(b.drop_last());
    assert(a.last() * weight >= b.last() * weight + weight) by (nonlinear_arith)
        requires
            a.last() >= b.last() + 1,
            weight > 0,
    ;
}

/// A zero limb at the top adds nothing.
pub proof fn lemma_limbs_zero_top(limbs: Seq<u32>)
    requires
        limbs.len() > 0,
        limbs.last() == 0,
    ensures
        spec_limbs(limbs) == spec_limbs(limbs.drop_last()),
{
    assert(limbs.last() * pow(spec_base(), (limbs.len() - 1) as nat) == 0) by (nonlinear_arith)
        requires
            limbs.last() == 0,
    ;
}

/// More limbs, with none of them zero at the top, hold a larger number.
pub proof fn lemma_limbs_longer(a: Seq<u32>, b: Seq<u32>)
    requires
        a.len() > b.len(),
        a.last() != 0,
    ensures
        spec_limbs(a) > spec_limbs(b),
{
    lemma_limbs_top(a);
    lemma_limbs_bound(b);
    if b.len() < a.len() - 1 {
        vstd::arithmetic::power::lemma_pow_strictly_increases(
            spec_base() as nat,
            b.len(),
            (a.len() - 1) as nat,
        );
    }
}

/// How two numbers compare.
#[derive(Clone, Copy, PartialEq, Eq, Structural, Debug)]
pub enum Order {
    Less,
    Equal,
    Greater,
}

/// How `a` compares with `b`.
pub open spec fn spec_order(a: int, b: int) -> Order {
    if a < b {
        Order::Less
    } else if a == b {
        Order::Equal
    } else {
        Order::Greater
    }
}

/// A natural number of any size.
pub struct Bigint {
    /// The limbs, lowest first, without a zero limb at the top.
    pub limbs: Vec<u32>,
}

impl Bigint {
    /// The number that is held.
    pub open spec fn spec_value(&self) -> nat {
        spec_limbs(self.limbs@)
    }

    /// No zero limb stands at the top, so that zero has no limb at all.
    pub open spec fn spec_wf(&self) -> bool {
        self.limbs@.len() > 0 ==> self.limbs@.last() != 0
    }

    /// Zero.
    pub fn zero() -> (r: Bigint)
        ensures
            r.spec_wf(),
            r.spec_value() == 0,
    {
        Bigint { limbs: Vec::new() }
    }

    /// The number `value`.
    pub fn from_u64(value: u64) -> (r: Bigint)
        ensures
            r.spec_wf(),
            r.spec_value() == value,
    {
        let mut limbs: Vec<u32> = Vec::new();
        let low = (value % 0x1_0000_0000) as u32;
        let high = (value / 0x1_0000_0000) as u32;
        proof {
            let none = Seq::<u32>::empty();
            lemma_pow0(spec_base());
            lemma_base_pow(0);
            lemma_limbs_push(none, low);
            lemma_limbs_push(none.push(low), high);
            assert(spec_limbs(none) == 0);
            assert(low * pow(spec_base(), 0) == low);
            assert(pow(spec_base(), 1) == spec_base());
            assert(spec_limbs(none.push(low)) == low);
            assert(spec_limbs(none.push(low).push(high)) == low + high * spec_base());
        }
        if high != 0 {
            limbs.push(low);
            limbs.push(high);
        } else if low != 0 {
            limbs.push(low);
        }
        Bigint { limbs }
    }

    /// Whether the number is zero.
    pub fn is_zero(&self) -> (zero: bool)
        requires
            self.spec_wf(),
        ensures
            zero == (self.spec_value() == 0),
    {
        proof {
            if self.limbs@.len() > 0 {
                lemma_limbs_top(self.limbs@);
                lemma_base_pow((self.limbs@.len() - 1) as nat);
            }
        }
        self.limbs.len() == 0
    }

    /// The product of the number and `scalar`.
    pub fn mul_scalar(&self, scalar: u64) -> (r: Bigint)
        requires
            self.spec_wf(),
        ensures
            r.spec_wf(),
            r.spec_value() == self.spec_value() * scalar,
    {
        let mut limbs: Vec<u32> = Vec::new();
        if scalar == 0 {
            assert(self.spec_value() * 0 == 0);
            return Bigint { limbs };
        }
        let count = self.limbs.len();
        let mut carry: u128 = 0;
        let mut i: usize = 0;
        proof {
            assert(self.limbs@.subrange(0, 0) == Seq::<u32>::empty());
            assert(limbs@ == Seq::<u32>::empty());
            lemma_pow0(spec_base());
            assert(spec_limbs(Seq::<u32>::empty()) == 0);
            assert(0 * scalar == 0);
            assert(carry * pow(spec_base(), 0) == 0);
        }
        while i < count
            invariant
                i <= count,
                count == self.limbs@.len(),
                limbs@.len() == i,
                carry < 0x1_0000_0000_0000_0000,
                spec_limbs(limbs@) + carry * pow(spec_base(), i as nat) == spec_limbs(
                    self.limbs@.subrange(0, i as int),
                ) * scalar,
            decreases count - i,
        {
            let limb = self.limbs[i];
            assert(limb * scalar + carry < 0x1_0000_0000_0000_0000_0000_0000) by (nonlinear_arith)
                requires
                    limb < 0x1_0000_0000,
                    scalar < 0x1_0000_0000_0000_0000,
                    carry < 0x1_0000_0000_0000_0000,
            ;
            let total: u128 = limb as u128 * scalar as u128 + carry;
            let low = (total % 0x1_0000_0000) as u32;
            let high = total / 0x1_0000_0000;
            proof {
                let weight = pow(spec_base(), i as nat);
                let before = self.limbs@.subrange(0, i as int);
                lemma_base_pow(i as nat);
                lemma_limbs_push(limbs@, low);
                assert(self.limbs@.subrange(0, i + 1) == before.push(limb));
                lemma_limbs_push(before, limb);
                assert(spec_limbs(limbs@) + low * weight + high * (spec_base() * weight) == (
                spec_limbs(before) + limb * weight) * scalar) by (nonlinear_arith)
                    requires
                        spec_limbs(limbs@) + carry * weight == spec_limbs(before) * scalar,
                        limb * scalar + carry == low + high * spec_base(),
                ;
            }
            limbs.push(low);
            carry = high;
            i = i + 1;
        }
        assert(self.limbs@.subrange(0, count as int) == self.limbs@);
        let low = (carry % 0x1_0000_0000) as u32;
        let high = (carry / 0x1_0000_0000) as u32;
        proof {
            let weight = pow(spec_base(), count as nat);
            lemma_base_pow(count as nat);
            lemma_limbs_push(limbs@, low);
            lemma_limbs_push(limbs@.push(low), high);
            assert(low * weight + high * (spec_base() * weight) == carry * weight)
                by (nonlinear_arith)
                requires
                    carry == low + high * spec_base(),
            ;
            if count > 0 {
                lemma_limbs_top(self.limbs@);
                lemma_limbs_bound(limbs@);
                lemma_base_pow((count - 1) as nat);
                let below = pow(spec_base(), (count - 1) as nat);
                // The product is not below the weight of the top limb, so
                // the top of what was written is not zero.
                assert(self.spec_value() * scalar >= below) by (nonlinear_arith)
                    requires
                        self.spec_value() >= below,
                        scalar >= 1,
                        below > 0,
                ;
                if carry == 0 {
                    lemma_limbs_bound(limbs@.drop_last());
                    if limbs@.last() == 0 {
                        assert(limbs@.last() * below == 0) by (nonlinear_arith)
                            requires
                                limbs@.last() == 0,
                        ;
                        assert(false);
                    }
                }
            } else {
                assert(carry == 0);
            }
        }
        if high != 0 {
            limbs.push(low);
            limbs.push(high);
        } else if low != 0 {
            limbs.push(low);
        }
        Bigint { limbs }
    }

    /// A copy of the number.
    pub fn duplicate(&self) -> (r: Bigint)
        ensures
            r.limbs@ == self.limbs@,
    {
        let mut limbs: Vec<u32> = Vec::new();
        let count = self.limbs.len();
        let mut i: usize = 0;
        while i < count
            invariant
                i <= count,
                count == self.limbs@.len(),
                limbs@ == self.limbs@.subrange(0, i as int),
            decreases count - i,
        {
            limbs.push(self.limbs[i]);
            i = i + 1;
        }
        Bigint { limbs }
    }

    /// How the number compares with `other`.
    pub fn compare(&self, other: &Bigint) -> (order: Order)
        requires
            self.spec_wf(),
            other.spec_wf(),
        ensures
            order == spec_order(self.spec_value() as int, other.spec_value() as int),
    {
        let count = self.limbs.len();
        if count > other.limbs.len() {
            proof {
                lemma_limbs_longer(self.limbs@, other.limbs@);
            }
            return Order::Greater;
        }
        if count < other.limbs.len() {
            proof {
                lemma_limbs_longer(other.limbs@, self.limbs@);
            }
            return Order::Less;
        }
        let mut i = count;
        assert(self.limbs@.subrange(0, i as int) == self.limbs@);
        assert(other.limbs@.subrange(0, i as int) == other.limbs@);
        while i > 0
            invariant
                i <= count,
                count == self.limbs@.len(),
                count == other.limbs@.len(),
                spec_order(self.spec_value() as int, other.spec_value() as int) == spec_order(
                    spec_limbs(self.limbs@.subrange(0, i as int)) as int,
                    spec_limbs(other.limbs@.subrange(0, i as int)) as int,
                ),
            decreases i,
        {
            let a = self.limbs[i - 1];
            let b = other.limbs[i - 1];
            let ghost mine = self.limbs@.subrange(0, i as int);
            let ghost theirs = other.limbs@.subrange(0, i as int);
            assert(mine.drop_last() == self.limbs@.subrange(0, i - 1));
            assert(theirs.drop_last() == other.limbs@.subrange(0, i - 1));
            if a > b {
                proof {
                    lemma_limbs_top_decides(mine, theirs);
                }
                return Order::Greater;
            }
            if a < b {
                proof {
                    lemma_limbs_top_decides(theirs, mine);
                }
                return Order::Less;
            }
            proof {
                let weight = pow(spec_base(), (i - 1) as nat);
                lemma_base_pow((i - 1) as nat);
                assert(mine.last() == theirs.last());
                assert(spec_limbs(mine) == spec_limbs(mine.drop_last()) + mine.last() * weight);
                assert(spec_limbs(theirs) == spec_limbs(theirs.drop_last()) + theirs.last()
                    * weight);
            }
            i = i - 1;
        }
        assert(self.limbs@.subrange(0, 0) == other.limbs@.subrange(0, 0));
        Order::Equal
    }

    /// Takes the zero limbs off the top of `limbs`.
    fn trimmed(limbs: Vec<u32>) -> (r: Bigint)
        ensures
            r.spec_wf(),
            r.spec_value() == spec_limbs(limbs@),
    {
        let mut limbs = limbs;
        let ghost value = spec_limbs(limbs@);
        while limbs.len() > 0 && limbs[limbs.len() - 1] == 0
            invariant
                spec_limbs(limbs@) == value,
            decreases limbs@.len(),
        {
            proof {
                lemma_limbs_zero_top(limbs@);
            }
            limbs.pop();
        }
        Bigint { limbs }
    }

    /// The sum of the number and `other`.
    pub fn add(&self, other: &Bigint) -> (r: Bigint)
        requires
            self.spec_wf(),
            other.spec_wf(),
        ensures
            r.spec_wf(),
            r.spec_value() == self.spec_value() + other.spec_value(),
    {
        let mine = self.limbs.len();
        let theirs = other.limbs.len();
        let mut limbs: Vec<u32> = Vec::new();
        let mut carry: u64 = 0;
        let mut i: usize = 0;
        proof {
            assert(self.limbs@.subrange(0, 0) == Seq::<u32>::empty());
            assert(other.limbs@.subrange(0, 0) == Seq::<u32>::empty());
            assert(limbs@ == Seq::<u32>::empty());
            assert(spec_limbs(Seq::<u32>::empty()) == 0);
            assert(carry * pow(spec_base(), 0) == 0);
        }
        while i < mine || i < theirs
            invariant
                mine == self.limbs@.len(),
                theirs == other.limbs@.len(),
                limbs@.len() == i,
                carry <= 1,
                spec_limbs(limbs@) + carry * pow(spec_base(), i as nat) == spec_limbs(
                    self.limbs@.subrange(
                        0,
                        if i <= mine {
                            i as int
                        } else {
                            mine as int
                        },
                    ),
                ) + spec_limbs(
                    other.limbs@.subrange(
                        0,
                        if i <= theirs {
                            i as int
                        } else {
                            theirs as int
                        },
                    ),
                ),
            decreases (if mine > theirs {
                mine
            } else {
                theirs
            }) - i,
        {
            let a: u64 = if i < mine {
                self.limbs[i] as u64
            } else {
                0
            };
            let b: u64 = if i < theirs {
                other.limbs[i] as u64
            } else {
                0
            };
            let total = a + b + carry;
            let low = (total % 0x1_0000_0000) as u32;
            let high = total / 0x1_0000_0000;
            proof {
                let weight = pow(spec_base(), i as nat);
                lemma_base_pow(i as nat);
                lemma_limbs_push(limbs@, low);
                let left = self.limbs@.subrange(
                    0,
                    if i <= mine {
                        i as int
                    } else {
                        mine as int
                    },
                );
                let right = other.limbs@.subrange(
                    0,
                    if i <= theirs {
                        i as int
                    } else {
                        theirs as int
                    },
                );
                if i < mine {
                    assert(self.limbs@.subrange(0, i + 1) == left.push(self.limbs@[i as int]));
                    lemma_limbs_push(left, self.limbs@[i as int]);
                }
                if i < theirs {
                    assert(other.limbs@.subrange(0, i + 1) == right.push(other.limbs@[i as int]));
                    lemma_limbs_push(right, other.limbs@[i as int]);
                }
                assert(spec_limbs(limbs@) + low * weight + high * (spec_base() * weight)
                    == spec_limbs(left) + a * weight + spec_limbs(right) + b * weight)
                    by (nonlinear_arith)
                    requires
                        spec_limbs(limbs@) + carry * weight == spec_limbs(left) + spec_limbs(
                            right,
                        ),
                        a + b + carry == low + high * spec_base(),
                ;
                assert(0 * weight == 0);
            }
            limbs.push(low);
            carry = high;
            i = i + 1;
        }
        assert(self.limbs@.subrange(0, mine as int) == self.limbs@);
        assert(other.limbs@.subrange(0, theirs as int) == other.limbs@);
        proof {
            lemma_limbs_push(limbs@, carry as u32);
        }
        limbs.push(carry as u32);
        Self::trimmed(limbs)
    }

    /// The difference of the number and `other`, which must not be larger.
    pub fn sub(&self, other: &Bigint) -> (r: Bigint)
        requires
            self.spec_wf(),
            other.spec_wf(),
            other.spec_value() <= self.spec_value(),
        ensures
            r.spec_wf(),
            r.spec_value() == self.spec_value() - other.spec_value(),
    {
        let mine = self.limbs.len();
        let theirs = other.limbs.len();
        proof {
            if theirs > mine {
                lemma_limbs_longer(other.limbs@, self.limbs@);
            }
        }
        let mut limbs: Vec<u32> = Vec::new();
        let mut borrow: u64 = 0;
        let mut i: usize = 0;
        proof {
            assert(self.limbs@.subrange(0, 0) == Seq::<u32>::empty());
            assert(other.limbs@.subrange(0, 0) == Seq::<u32>::empty());
            assert(limbs@ == Seq::<u32>::empty());
            assert(spec_limbs(Seq::<u32>::empty()) == 0);
            assert(borrow * pow(spec_base(), 0) == 0);
        }
        while i < mine
            invariant
                i <= mine,
                theirs <= mine,
                mine == self.limbs@.len(),
                theirs == other.limbs@.len(),
                limbs@.len() == i,
                borrow <= 1,
                spec_limbs(limbs@) + spec_limbs(
                    other.limbs@.subrange(
                        0,
                        if i <= theirs {
                            i as int
                        } else {
                            theirs as int
                        },
                    ),
                ) == spec_limbs(self.limbs@.subrange(0, i as int)) + borrow * pow(
                    spec_base(),
                    i as nat,
                ),
            decreases mine - i,
        {
            let a: u64 = self.limbs[i] as u64;
            let b: u64 = if i < theirs {
                other.limbs[i] as u64
            } else {
                0
            };
            let total = 0x1_0000_0000 + a - b - borrow;
            let low = (total % 0x1_0000_0000) as u32;
            let high = total / 0x1_0000_0000;
            proof {
                let weight = pow(spec_base(), i as nat);
                lemma_base_pow(i as nat);
                lemma_limbs_push(limbs@, low);
                let left = self.limbs@.subrange(0, i as int);
                let right = other.limbs@.subrange(
                    0,
                    if i <= theirs {
                        i as int
                    } else {
                        theirs as int
                    },
                );
                assert(self.limbs@.subrange(0, i + 1) == left.push(self.limbs@[i as int]));
                lemma_limbs_push(left, self.limbs@[i as int]);
                if i < theirs {
                    assert(other.limbs@.subrange(0, i + 1) == right.push(other.limbs@[i as int]));
                    lemma_limbs_push(right, other.limbs@[i as int]);
                }
                assert(spec_limbs(limbs@) + low * weight + spec_limbs(right) + b * weight
                    == spec_limbs(left) + a * weight + (1 - high) * (spec_base() * weight))
                    by (nonlinear_arith)
                    requires
                        spec_limbs(limbs@) + spec_limbs(right) == spec_limbs(left) + borrow
                            * weight,
                        spec_base() + a - b - borrow == low + high * spec_base(),
                ;
                assert(0 * weight == 0);
            }
            limbs.push(low);
            borrow = 1 - high;
            i = i + 1;
        }
        assert(self.limbs@.subrange(0, mine as int) == self.limbs@);
        assert(other.limbs@.subrange(0, theirs as int) == other.limbs@);
        proof {
            lemma_limbs_bound(limbs@);
            lemma_base_pow(mine as nat);
            let weight = pow(spec_base(), mine as nat);
            if borrow == 1 {
                assert(1 * weight == weight);
                assert(false);
            }
            assert(0 * weight == 0);
        }
        Self::trimmed(limbs)
    }

    /// The product of the number and `base^count`.
    pub fn mul_pow(&self, base: u64, count: u128) -> (r: Bigint)
        requires
            self.spec_wf(),
        ensures
            r.spec_wf(),
            r.spec_value() == self.spec_value() * pow(base as int, count as nat),
    {
        let mut r = self.duplicate();
        let mut i: u128 = 0;
        proof {
            lemma_pow0(base as int);
            assert(self.spec_value() * 1 == self.spec_value());
        }
        while i < count
            invariant
                i <= count,
                r.spec_wf(),
                r.spec_value() == self.spec_value() * pow(base as int, i as nat),
            decreases count - i,
        {
            proof {
                vstd::arithmetic::power::lemma_pow_adds(base as int, i as nat, 1);
                vstd::arithmetic::power::lemma_pow1(base as int);
                let p = pow(base as int, i as nat);
                assert(self.spec_value() * p * base == self.spec_value() * (p * base))
                    by (nonlinear_arith);
            }
            r = r.mul_scalar(base);
            i = i + 1;
        }
        r
    }

    /// The product of the number and `2^bits`.
    pub fn shl(&self, bits: u32) -> (r: Bigint)
        requires
            self.spec_wf(),
        ensures
            r.spec_wf(),
            r.spec_value() == self.spec_value() * pow2(bits as nat),
    {
        let whole = bits / 32;
        let part = bits % 32;
        let shifted = self.mul_pow(0x1_0000_0000, whole as u128);
        let small = crate::binary::pow2_u64(part);
        proof {
            lemma2_to64();
            vstd::arithmetic::power::lemma_pow_multiplies(2, 32, whole as nat);
            vstd::arithmetic::power::lemma_pow_adds(2, (32 * whole) as nat, part as nat);
            lemma_pow_positive(2, (32 * whole) as nat);
            lemma_pow_positive(2, part as nat);
            lemma_pow_positive(2, bits as nat);
            let high = pow(2, (32 * whole) as nat);
            let low = pow(2, part as nat);
            assert(pow(2, 32) == 0x1_0000_0000) by {
                lemma2_to64();
                lemma_pow_positive(2, 32);
                assert(pow2(32) == 0x1_0000_0000);
            }
            assert(pow(0x1_0000_0000, whole as nat) == high);
            assert(small == low);
            assert(bits == 32 * whole + part);
            assert(high * low == pow(2, bits as nat));
            assert(self.spec_value() * high * low == self.spec_value() * (high * low))
                by (nonlinear_arith);
        }
        shifted.mul_scalar(small)
    }
}

} // verus!
