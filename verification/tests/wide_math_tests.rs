//! The 256-bit arithmetic primitives on concrete values.

use dex_driver::wide_math::{
    add_carry, div_rem_wide, mul_div_ceil, mul_div_floor, mul_le, mul_wide, wide_mul_u128,
};

#[test]
fn products_split_into_limbs() {
    assert_eq!(mul_wide(0, 7), (0, 0));
    assert_eq!(mul_wide(1 << 127, 2), (1, 0));
    assert_eq!(mul_wide(u128::MAX, u128::MAX), (u128::MAX - 1, 1));
}

#[test]
fn division_recovers_the_factors() {
    let (hi, lo) = mul_wide(123_456_789_000_000_000_000_000, 987_654_321_000_000_000_000);
    let ((q_hi, q_lo), rest) = div_rem_wide(hi, lo, 987_654_321_000_000_000_000);
    assert_eq!(q_hi, 0);
    assert_eq!(q_lo, 123_456_789_000_000_000_000_000);
    assert_eq!(rest, 0);
}

#[test]
fn division_by_small_numbers_keeps_the_remainder() {
    // value = 1 * 2^128 + 5, divided by 3: 2^128 - 1 is a multiple of 3,
    // so the value is 3 * (value / 3) exactly
    let ((q_hi, q_lo), rest) = div_rem_wide(1, 5, 3);
    assert_eq!(q_hi, 0);
    assert_eq!(rest, 0);
    assert_eq!(q_lo, u128::MAX / 3 + 2);

    let ((q_hi, q_lo), rest) = div_rem_wide(1, 6, 3);
    assert_eq!((q_hi, q_lo, rest), (0, u128::MAX / 3 + 2, 1));
}

#[test]
fn floor_and_ceiling_divide_products() {
    assert_eq!(mul_div_floor(10, 10, 3), Some(33));
    assert_eq!(mul_div_ceil(10, 10, 3), Some(34));
    assert_eq!(mul_div_ceil(10, 10, 4), Some(25));
    assert_eq!(mul_div_floor(u128::MAX, u128::MAX, 1), None);
    assert_eq!(mul_div_floor(u128::MAX, u128::MAX, u128::MAX), Some(u128::MAX));
}

#[test]
fn cross_products_compare_without_overflow() {
    assert!(mul_le(u128::MAX, 2, u128::MAX, 3));
    assert!(!mul_le(u128::MAX, 3, u128::MAX, 2));
    assert!(mul_le(0, u128::MAX, 1, 0));
}

#[test]
fn carries_are_explicit() {
    assert_eq!(add_carry(1, 2), (3, 0));
    assert_eq!(add_carry(u128::MAX, 1), (0, 1));
    assert_eq!(add_carry(u128::MAX, u128::MAX), (u128::MAX - 1, 1));
}

#[test]
fn wide_by_small_products_saturate_their_report() {
    assert_eq!(wide_mul_u128(0, 10, 10), Some((0, 100)));
    assert_eq!(wide_mul_u128(1, 0, 3), Some((3, 0)));
    assert_eq!(wide_mul_u128(u128::MAX, u128::MAX, 2), None);
}
