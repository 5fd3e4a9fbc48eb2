use lexical::bigint::{Bigint, Order};
use lexical::fast_path::{checked_pow, compare_float, compare_scaled, nearest_small, pow2_u128, raise};
use lexical::float::FloatKind;
use lexical::nearest::nearest_float;

fn next(state: &mut u64) -> u64 {
    *state ^= *state << 13;
    *state ^= *state >> 7;
    *state ^= *state << 17;
    *state
}

#[test]
fn powers_of_two_in_128_bits() {
    assert_eq!(pow2_u128(0), 1);
    assert_eq!(pow2_u128(1), 2);
    assert_eq!(pow2_u128(64), 1 << 64);
    assert_eq!(pow2_u128(127), 1 << 127);
    assert_eq!(raise(0, 500), Some(0));
    assert_eq!(raise(3, 0), Some(3));
    assert_eq!(raise(3, 10), Some(3072));
    assert_eq!(raise(1, 127), Some(1 << 127));
    assert_eq!(raise(1, 128), None);
    assert_eq!(raise(2, 127), None);
    assert_eq!(raise(u128::MAX, 0), Some(u128::MAX));
    assert_eq!(raise(u128::MAX, 1), None);
}

#[test]
fn scaled_numbers_compare() {
    assert_eq!(compare_scaled(1, 10, 1024, 0), Order::Equal);
    assert_eq!(compare_scaled(1, 10, 1025, 0), Order::Less);
    assert_eq!(compare_scaled(1, 10, 1023, 0), Order::Greater);
    assert_eq!(compare_scaled(3, 0, 1, 1), Order::Greater);
    assert_eq!(compare_scaled(3, 0, 1, 2), Order::Less);
    assert_eq!(compare_scaled(0, 2000, 0, 0), Order::Equal);
    assert_eq!(compare_scaled(0, 2000, 1, 0), Order::Less);
    assert_eq!(compare_scaled(1, 2000, u128::MAX, 0), Order::Greater);
    assert_eq!(compare_scaled(u128::MAX, 0, 1, 2000), Order::Less);
    assert_eq!(compare_scaled(u128::MAX, 5, u128::MAX, 5), Order::Equal);
    assert_eq!(compare_scaled(1 << 100, 1000, 1 << 99, 1001), Order::Equal);
    assert_eq!(compare_scaled((1 << 100) + 1, 1000, 1 << 99, 1001), Order::Greater);
}

#[test]
fn powers_in_64_bits() {
    assert_eq!(checked_pow(10, 0), Some(1));
    assert_eq!(checked_pow(10, 1), Some(10));
    assert_eq!(checked_pow(10, 19), Some(10_000_000_000_000_000_000));
    assert_eq!(checked_pow(10, 20), None);
    assert_eq!(checked_pow(2, 63), Some(1 << 63));
    assert_eq!(checked_pow(2, 64), None);
    assert_eq!(checked_pow(36, 12), Some(36u64.pow(12)));
    assert_eq!(checked_pow(36, 13), None);
    assert_eq!(checked_pow(3, u128::MAX), None);
}

#[test]
fn big_integers_as_machine_integers() {
    assert_eq!(Bigint::zero().to_u64(), Some(0));
    assert_eq!(Bigint::from_u64(7).to_u64(), Some(7));
    assert_eq!(Bigint::from_u64(1 << 32).to_u64(), Some(1 << 32));
    assert_eq!(Bigint::from_u64(u64::MAX).to_u64(), Some(u64::MAX));
    assert_eq!(Bigint::from_u64(u64::MAX).add(&Bigint::from_u64(1)).to_u64(), None);
    assert_eq!(Bigint::from_u64(1).shl(200).to_u64(), None);
}

#[test]
fn floats_compare_with_ratios() {
    let one = 1.0f64.to_bits();
    assert_eq!(compare_float(one, 1, 1, FloatKind::Binary64, false), Order::Equal);
    assert_eq!(compare_float(one, 2, 1, FloatKind::Binary64, false), Order::Less);
    assert_eq!(compare_float(one, 1, 2, FloatKind::Binary64, false), Order::Greater);
    assert_eq!(compare_float(one, 1, 1, FloatKind::Binary64, true), Order::Greater);
    assert_eq!(compare_float(0.1f64.to_bits(), 1, 10, FloatKind::Binary64, false), Order::Greater);
    assert_eq!(compare_float(0.3f64.to_bits(), 3, 10, FloatKind::Binary64, false), Order::Less);
    assert_eq!(compare_float(0, 0, 5, FloatKind::Binary64, false), Order::Equal);
    assert_eq!(
        compare_float(f64::INFINITY.to_bits(), u64::MAX, 1, FloatKind::Binary64, false),
        Order::Greater
    );
    assert_eq!(
        compare_float(0.5f32.to_bits() as u64, 1, 2, FloatKind::Binary32, false),
        Order::Equal
    );
}

#[test]
fn small_ratios_round_as_std_divides() {
    let mut state = 0x2545_f491_4f6c_dd1du64;
    for _ in 0..2000 {
        // Both numbers are floats themselves, so that std rounds their
        // quotient once.
        let num = next(&mut state) >> 11;
        let den = (next(&mut state) >> 11).max(1);
        let expected = (num as f64) / (den as f64);
        assert_eq!(nearest_small(num, den, FloatKind::Binary64), expected.to_bits());
        let num = next(&mut state) >> 40;
        let den = (next(&mut state) >> 40).max(1);
        let expected = (num as f32) / (den as f32);
        assert_eq!(nearest_small(num, den, FloatKind::Binary32), expected.to_bits() as u64);
    }
    assert_eq!(nearest_small(0, 9, FloatKind::Binary64), 0);
    assert_eq!(nearest_small(1, 3, FloatKind::Binary64), (1.0f64 / 3.0).to_bits());
    assert_eq!(nearest_small(u64::MAX, 1, FloatKind::Binary64), (u64::MAX as f64).to_bits());
    assert_eq!(nearest_small(1, u64::MAX, FloatKind::Binary64), (1.0 / u64::MAX as f64).to_bits());
    assert_eq!(nearest_small(u64::MAX, 1, FloatKind::Binary32), (u64::MAX as f32).to_bits() as u64);
}

#[test]
fn small_ratios_round_as_big_ones_do() {
    let mut state = 0x9e37_79b9_7f4a_7c15u64;
    for round in 0..300 {
        let num = next(&mut state) >> (round % 64);
        let den = (next(&mut state) >> ((round * 7) % 64)).max(1);
        for (kind, unit) in [(FloatKind::Binary64, 1074), (FloatKind::Binary32, 149)] {
            let big = nearest_float(&Bigint::from_u64(num).shl(unit), &Bigint::from_u64(den), kind);
            assert_eq!(nearest_small(num, den, kind), big);
        }
    }
}

#[test]
fn halfway_ratios_round_to_even() {
    // 2^53 + 1 lies in the middle of two floats.
    assert_eq!(nearest_small((1 << 53) + 1, 1, FloatKind::Binary64), ((1u64 << 53) as f64).to_bits());
    assert_eq!(
        nearest_small((1 << 53) + 3, 1, FloatKind::Binary64),
        (((1u64 << 53) + 4) as f64).to_bits()
    );
    assert_eq!(
        nearest_small(2 * ((1 << 53) + 1), 2, FloatKind::Binary64),
        ((1u64 << 53) as f64).to_bits()
    );
    assert_eq!(nearest_small((1 << 24) + 1, 1, FloatKind::Binary32), ((1u32 << 24) as f32).to_bits() as u64);
    assert_eq!(
        nearest_small((1 << 24) + 3, 1, FloatKind::Binary32),
        (((1u32 << 24) + 4) as f32).to_bits() as u64
    );
}
