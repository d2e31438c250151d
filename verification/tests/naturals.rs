use scalar_eval::binary64::{pattern_scale, pattern_significand, round_ratio, scaled_by};
use scalar_eval::natural::Natural;

fn same(a: &Natural, b: &Natural) -> bool {
    a.le(b) && b.le(a)
}

#[test]
fn small_numbers_compare() {
    let a = Natural::from_u64(5);
    let b = Natural::from_u64(7);
    assert!(a.le(&b));
    assert!(!b.le(&a));
    assert!(a.le(&a));
    assert!(Natural::from_u64(0).is_zero());
    assert!(!a.is_zero());
    assert!(Natural::from_u128(0).is_zero());
}

#[test]
fn wide_numbers_compare() {
    let a = Natural::from_u128(u128::MAX);
    let b = Natural::from_u64(u64::MAX);
    assert!(b.le(&a));
    assert!(!a.le(&b));
    let c = Natural::from_u128(1u128 << 64);
    assert!(b.le(&c) && !c.le(&b));
    assert!(same(&b.mul_add_small(1, 1), &c));
}

#[test]
fn multiply_and_add() {
    let a = Natural::from_u64(u64::MAX);
    let got = a.mul_add_small(u64::MAX, u64::MAX);
    let want = Natural::from_u128((u64::MAX as u128) * (u64::MAX as u128) + u64::MAX as u128);
    assert!(same(&got, &want));
    assert!(a.mul_add_small(0, 0).is_zero());
    assert!(same(&a.mul_add_small(0, 9), &Natural::from_u64(9)));
}

#[test]
fn shifting_multiplies_by_powers_of_two() {
    let one = Natural::from_u64(1);
    assert!(same(&one.shl(0), &one));
    assert!(same(&one.shl(63), &Natural::from_u64(1 << 63)));
    assert!(same(&one.shl(64), &Natural::from_u128(1 << 64)));
    assert!(same(&one.shl(127), &Natural::from_u128(1 << 127)));
    assert!(same(&Natural::from_u64(3).shl(100), &Natural::from_u128(3 << 100)));
    assert!(same(&one.shl(200).shl(300), &one.shl(500)));
    assert!(!one.shl(500).le(&one.shl(499)));
    assert!(one.shl(499).mul_add_small(2, 0).le(&one.shl(500)));
    assert_eq!(Natural::small_power_of_two(0), 1);
    assert_eq!(Natural::small_power_of_two(63), 1 << 63);
}

#[test]
fn patterns_split_into_significand_and_scale() {
    assert_eq!(pattern_significand(0), 0);
    assert_eq!(pattern_scale(0), 0);
    assert_eq!(pattern_significand(1), 1);
    assert_eq!(pattern_significand(0x000f_ffff_ffff_ffff), 0x000f_ffff_ffff_ffff);
    assert_eq!(pattern_significand(0x0010_0000_0000_0000), 0x0010_0000_0000_0000);
    assert_eq!(pattern_scale(0x0010_0000_0000_0000), 0);
    assert_eq!(pattern_scale(0x0020_0000_0000_0000), 1);
    assert_eq!(pattern_significand(1.5f64.to_bits()), 0x0018_0000_0000_0000);
    assert_eq!(pattern_scale(1.0f64.to_bits()), 1022);
    assert_eq!(pattern_scale(0x7ff0_0000_0000_0000), 2046);
    let three = Natural::from_u64(3);
    assert!(same(&scaled_by(&three, 2), &Natural::from_u64(6)));
    assert!(same(&scaled_by(&three, 0x0020_0000_0000_0000), &Natural::from_u64(3).shl(53)));
}

#[test]
fn ratios_round_to_the_nearest_pattern() {
    let one = Natural::from_u64(1);
    let two = Natural::from_u64(2);
    assert_eq!(round_ratio(&Natural::from_u64(0), &one), 0);
    assert_eq!(round_ratio(&Natural::from_u64(5), &one), 5);
    assert_eq!(round_ratio(&Natural::from_u64(1), &two), 0);
    assert_eq!(round_ratio(&Natural::from_u64(3), &two), 2);
    assert_eq!(round_ratio(&Natural::from_u64(5), &two), 2);
    assert_eq!(round_ratio(&Natural::from_u64(7), &two), 4);
    assert_eq!(round_ratio(&Natural::from_u64(7), &Natural::from_u64(3)), 2);
    assert_eq!(round_ratio(&Natural::from_u64(8), &Natural::from_u64(3)), 3);
    assert_eq!(round_ratio(&one.shl(1074), &one), 1.0f64.to_bits());
    assert_eq!(round_ratio(&one.shl(1074), &Natural::from_u64(3)), (1.0f64 / 3.0).to_bits());
    assert_eq!(round_ratio(&one.shl(2098), &one), 0x7ff0_0000_0000_0000);
    assert_eq!(round_ratio(&one.shl(3000), &one), 0x7ff0_0000_0000_0000);
    let max = Natural::from_u64(0x001f_ffff_ffff_ffff).shl(2045);
    assert_eq!(round_ratio(&max, &one), f64::MAX.to_bits());
    let half_way = Natural::from_u64(0x003f_ffff_ffff_ffff).shl(2044);
    assert_eq!(round_ratio(&half_way, &one), 0x7ff0_0000_0000_0000);
    let just_below = Natural::from_u64(0x007f_ffff_ffff_fffd).shl(2043);
    assert_eq!(round_ratio(&just_below, &one), f64::MAX.to_bits());
}
