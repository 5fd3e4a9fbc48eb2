use lexical::bigint::{Bigint, Order};
use lexical::float::FloatKind;
use lexical::nearest::nearest_float;

fn big(value: u128) -> Bigint {
    let low = Bigint::from_u64(value as u64);
    let high = Bigint::from_u64((value >> 64) as u64).shl(64);
    high.add(&low)
}

fn small(value: &Bigint) -> u128 {
    assert!(value.limbs.len() <= 4);
    value
        .limbs
        .iter()
        .enumerate()
        .map(|(i, &limb)| (limb as u128) << (32 * i))
        .sum()
}

#[test]
fn big_integers_from_machine_integers() {
    assert!(Bigint::zero().limbs.is_empty());
    assert!(Bigint::zero().is_zero());
    assert!(Bigint::from_u64(0).is_zero());
    assert_eq!(Bigint::from_u64(1).limbs, vec![1]);
    assert_eq!(Bigint::from_u64(u32::MAX as u64).limbs, vec![u32::MAX]);
    assert_eq!(Bigint::from_u64(1 << 32).limbs, vec![0, 1]);
    assert_eq!(Bigint::from_u64(u64::MAX).limbs, vec![u32::MAX, u32::MAX]);
    assert!(!Bigint::from_u64(7).is_zero());
    assert_eq!(Bigint::from_u64(77).duplicate().limbs, vec![77]);
}

#[test]
fn big_integer_products() {
    assert!(Bigint::from_u64(5).mul_scalar(0).is_zero());
    assert!(Bigint::zero().mul_scalar(5).is_zero());
    assert_eq!(small(&Bigint::from_u64(u64::MAX).mul_scalar(u64::MAX)), (u64::MAX as u128).pow(2));
    assert_eq!(small(&Bigint::from_u64(12345).mul_scalar(1000)), 12345000);
    assert_eq!(small(&big(u128::MAX / 7).mul_scalar(7)), u128::MAX / 7 * 7);
    assert_eq!(small(&Bigint::from_u64(3).mul_pow(10, 20)), 3 * 10u128.pow(20));
    assert_eq!(small(&Bigint::from_u64(3).mul_pow(10, 0)), 3);
    assert_eq!(small(&Bigint::from_u64(1).mul_pow(2, 127)), 1 << 127);
    assert_eq!(Bigint::from_u64(1).mul_pow(10, 400).limbs.len(), 42);
}

#[test]
fn big_integer_shifts() {
    assert_eq!(small(&Bigint::from_u64(1).shl(0)), 1);
    assert_eq!(small(&Bigint::from_u64(1).shl(31)), 1 << 31);
    assert_eq!(small(&Bigint::from_u64(1).shl(32)), 1 << 32);
    assert_eq!(small(&Bigint::from_u64(5).shl(100)), 5 << 100);
    assert_eq!(Bigint::from_u64(1).shl(1075).limbs.len(), 34);
    assert_eq!(Bigint::from_u64(1).shl(1075).limbs[33], 1 << 19);
    assert!(Bigint::zero().shl(40).is_zero());
}

#[test]
fn big_integer_sums_and_differences() {
    assert_eq!(small(&big(u64::MAX as u128).add(&Bigint::from_u64(1))), 1 << 64);
    assert_eq!(small(&Bigint::zero().add(&Bigint::from_u64(9))), 9);
    assert_eq!(small(&big(1 << 100).add(&big((1 << 100) - 1))), (1 << 101) - 1);
    assert_eq!(small(&big(u128::MAX / 2).add(&big(u128::MAX / 2))), u128::MAX - 1);
    assert_eq!(small(&big(1 << 64).sub(&Bigint::from_u64(1))), u64::MAX as u128);
    assert!(big(12345678901234567890123).sub(&big(12345678901234567890123)).is_zero());
    assert_eq!(small(&big(1 << 100).sub(&big(1 << 99))), 1 << 99);
    assert_eq!(small(&big(1000).sub(&Bigint::zero())), 1000);
}

#[test]
fn big_integer_order() {
    assert_eq!(Bigint::zero().compare(&Bigint::zero()), Order::Equal);
    assert_eq!(Bigint::zero().compare(&Bigint::from_u64(1)), Order::Less);
    assert_eq!(Bigint::from_u64(2).compare(&Bigint::from_u64(1)), Order::Greater);
    assert_eq!(big(1 << 64).compare(&Bigint::from_u64(u64::MAX)), Order::Greater);
    assert_eq!(big((1 << 64) + 5).compare(&big((1 << 64) + 6)), Order::Less);
    assert_eq!(big((7 << 64) + 5).compare(&big((6 << 64) + 6)), Order::Greater);
    assert_eq!(big(u128::MAX).compare(&big(u128::MAX)), Order::Equal);
}

#[test]
fn nearest_floats() {
    let one = Bigint::from_u64(1);
    let unit = one.shl(1074);
    let nearest = |num: &Bigint, den: &Bigint| nearest_float(num, den, FloatKind::Binary64);
    assert_eq!(nearest(&Bigint::zero(), &one), 0);
    assert_eq!(nearest(&one, &one), 1);
    assert_eq!(nearest(&one, &Bigint::from_u64(2)), 0);
    assert_eq!(nearest(&Bigint::from_u64(3), &Bigint::from_u64(2)), 2);
    assert_eq!(nearest(&Bigint::from_u64(5), &Bigint::from_u64(2)), 2);
    assert_eq!(nearest(&Bigint::from_u64(51), &Bigint::from_u64(100)), 1);
    assert_eq!(nearest(&unit, &one), 1.0f64.to_bits());
    assert_eq!(nearest(&unit, &Bigint::from_u64(10)), 0.1f64.to_bits());
    assert_eq!(nearest(&unit.mul_scalar(3), &one), 3.0f64.to_bits());
    assert_eq!(nearest(&unit.mul_pow(10, 308), &one), 1e308f64.to_bits());
    assert_eq!(nearest(&unit.mul_pow(10, 309), &one), f64::INFINITY.to_bits());
    assert_eq!(
        nearest_float(&one.shl(149), &Bigint::from_u64(3), FloatKind::Binary32),
        (1.0f32 / 3.0).to_bits() as u64
    );
    assert_eq!(
        nearest_float(&one.shl(149 + 128), &one, FloatKind::Binary32),
        f32::INFINITY.to_bits() as u64
    );
}

#[test]
fn big_integer_times_big_integer() {
    assert!(Bigint::from_u64(5).mul(&[]).is_zero());
    assert!(Bigint::zero().mul(&[1, 2, 3]).is_zero());
    assert_eq!(small(&Bigint::from_u64(7).mul(&[6])), 42);
    assert_eq!(small(&Bigint::from_u64(u64::MAX).mul(&[u32::MAX, u32::MAX])), (u64::MAX as u128).pow(2));
    assert_eq!(small(&big(1 << 64).mul(&[0, 1])), 1 << 96);
    let left = big(0x1234_5678_9abc_def0_1122);
    let right: u128 = 0xfedc_ba98_7654;
    let limbs = [right as u32, (right >> 32) as u32];
    assert_eq!(small(&left.mul(&limbs)), 0x1234_5678_9abc_def0_1122 * right);
}

#[test]
fn big_integer_wide_shifts() {
    assert_eq!(small(&Bigint::from_u64(3).shl_wide(0)), 3);
    assert_eq!(small(&Bigint::from_u64(3).shl_wide(100)), 3 << 100);
    assert_eq!(Bigint::from_u64(1).shl_wide(3200).limbs.len(), 101);
}

#[test]
fn products_with_large_powers() {
    for prime in [3u32, 5, 7, 11, 13, 17, 19, 23, 29, 31] {
        let one = Bigint::from_u64(1);
        assert_eq!(small(&one.mul_large_power(prime, 0)), 1);
        assert_eq!(small(&one.mul_large_power(prime, 1)), prime as u128);
        assert_eq!(small(&one.mul_large_power(prime, 13)), (prime as u128).pow(13));
        assert_eq!(small(&Bigint::from_u64(6).mul_large_power(prime, 20)), 6 * (prime as u128).pow(20));
        // Beyond the table the largest power is taken again and again.
        let slow = one.mul_pow(prime as u64, 1500);
        let fast = one.mul_large_power(prime, 1500);
        assert_eq!(slow.limbs, fast.limbs);
    }
}

#[test]
fn products_with_powers_of_a_radix() {
    for radix in 2u32..=36 {
        let seven = Bigint::from_u64(7);
        assert_eq!(small(&seven.mul_radix_pow(radix, 0)), 7);
        assert_eq!(small(&seven.mul_radix_pow(radix, 1)), 7 * radix as u128);
        assert_eq!(small(&seven.mul_radix_pow(radix, 20)), 7 * (radix as u128).pow(20));
        let slow = seven.mul_pow(radix as u64, 700);
        let fast = seven.mul_radix_pow(radix, 700);
        assert_eq!(slow.limbs, fast.limbs);
    }
}
