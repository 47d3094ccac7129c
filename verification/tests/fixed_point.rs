use musicai_core::fixed::{
    floor_div, floor_sqrt, normalized_ratio, product_le, unit_ratio_of, wide_mul, Wide, MILLI,
    UNIT,
};

#[test]
fn scales() {
    assert_eq!(UNIT, 1_000_000);
    assert_eq!(MILLI, 1_000);
}

#[test]
fn floor_division_rounds_toward_negative_infinity() {
    assert_eq!(floor_div(7, 2), 3);
    assert_eq!(floor_div(-7, 2), -4);
    assert_eq!(floor_div(-8, 2), -4);
    assert_eq!(floor_div(-1, 1_000_000), -1);
    assert_eq!(floor_div(0, 5), 0);
    assert_eq!(floor_div(-5, 5), -1);
    assert_eq!(floor_div(i128::MAX, 1), i128::MAX);
    assert_eq!(floor_div(i128::MIN + 1, 1), i128::MIN + 1);
    assert_eq!(floor_div(i128::MIN + 1, i128::MAX), -1);
}

#[test]
fn wide_product_keeps_every_bit() {
    let r = wide_mul(u128::MAX, u128::MAX);
    assert_eq!((r.hi, r.lo), (u128::MAX - 1, 1));
    let r = wide_mul(1 << 64, 1 << 64);
    assert_eq!((r.hi, r.lo), (1, 0));
    let r = wide_mul(u64::MAX as u128, u64::MAX as u128);
    assert_eq!((r.hi, r.lo), (0, (u64::MAX as u128) * (u64::MAX as u128)));
    let r = wide_mul(0, u128::MAX);
    assert_eq!((r.hi, r.lo), (0, 0));
    let r = wide_mul(3 << 100, 5 << 100);
    assert_eq!((r.hi, r.lo), (15 << 72, 0));
    let r = wide_mul(0x1234_5678_9ABC_DEF0_0FED_CBA9_8765_4321, 0xFFFF_0000_FFFF_0000_FFFF_0000_FFFF_0001);
    assert_eq!(r.lo, 0x1234_5678_9ABC_DEF0_0FED_CBA9_8765_4321u128.wrapping_mul(0xFFFF_0000_FFFF_0000_FFFF_0000_FFFF_0001));
}

#[test]
fn wide_numbers_compare_by_value() {
    let small = Wide { hi: 1, lo: u128::MAX };
    let large = Wide { hi: 2, lo: 0 };
    assert!(small.le(&large));
    assert!(!large.le(&small));
    assert!(small.le(&small));
    assert!(Wide { hi: 0, lo: 5 }.le(&Wide { hi: 0, lo: 6 }));
    assert!(!Wide { hi: 0, lo: 7 }.le(&Wide { hi: 0, lo: 6 }));
}

#[test]
fn products_compare_without_overflow() {
    assert!(product_le(u128::MAX, u128::MAX, u128::MAX, u128::MAX));
    assert!(product_le(u128::MAX - 1, u128::MAX, u128::MAX, u128::MAX));
    assert!(!product_le(u128::MAX, u128::MAX, u128::MAX - 1, u128::MAX));
    assert!(product_le(2, 3, 6, 1));
    assert!(!product_le(2, 4, 7, 1));
    assert!(product_le(0, u128::MAX, 0, 0));
    assert!(product_le(1 << 127, 4, 1 << 65, 1 << 64));
    assert!(!product_le((1 << 127) + 1, 4, 1 << 65, 1 << 64));
}

#[test]
fn ratio_to_a_root_in_millionths() {
    assert_eq!(unit_ratio_of(1, 4), 500_000);
    assert_eq!(unit_ratio_of(3, 10), 948_683);
    assert_eq!(unit_ratio_of(1, 2), 707_106);
    assert_eq!(unit_ratio_of(0, 7), 0);
    assert_eq!(unit_ratio_of(1, u128::MAX), 0);
    assert_eq!(unit_ratio_of(u64::MAX, u128::MAX), 999_999);
}

#[test]
fn ratio_to_a_root_is_capped_at_one() {
    assert_eq!(unit_ratio_of(5, 1), 1_000_000);
    assert_eq!(unit_ratio_of(5, 25), 1_000_000);
    assert_eq!(unit_ratio_of(5, 26), 980_580);
    assert_eq!(unit_ratio_of(0, 0), 1_000_000);
    assert_eq!(unit_ratio_of(u64::MAX, 1), 1_000_000);
}

#[test]
fn normalized_ratio_keeps_the_sign() {
    assert_eq!(normalized_ratio(20, 14, 29), 992_583);
    assert_eq!(normalized_ratio(-20, 14, 29), -992_583);
    assert_eq!(normalized_ratio(3, 2, 5), 948_683);
    assert_eq!(normalized_ratio(0, 2, 5), 0);
    assert_eq!(normalized_ratio(i64::MIN, u64::MAX, u64::MAX), -500_000);
    assert_eq!(normalized_ratio(i64::MAX, u64::MAX, u64::MAX), 499_999);
}

#[test]
fn normalized_ratio_without_energy_is_zero() {
    assert_eq!(normalized_ratio(20, 0, 29), 0);
    assert_eq!(normalized_ratio(20, 14, 0), 0);
    assert_eq!(normalized_ratio(-20, 0, 0), 0);
}

#[test]
fn square_root_rounds_down() {
    assert_eq!(floor_sqrt(0), 0);
    assert_eq!(floor_sqrt(1), 1);
    assert_eq!(floor_sqrt(3), 1);
    assert_eq!(floor_sqrt(4), 2);
    assert_eq!(floor_sqrt(15), 3);
    assert_eq!(floor_sqrt(16), 4);
    assert_eq!(floor_sqrt(1_000_000_000_000), 1_000_000);
    assert_eq!(floor_sqrt(999_999_999_999), 999_999);
    assert_eq!(floor_sqrt(u64::MAX), u32::MAX);
    assert_eq!(floor_sqrt((u32::MAX as u64) * (u32::MAX as u64) - 1), u32::MAX - 1);
}
