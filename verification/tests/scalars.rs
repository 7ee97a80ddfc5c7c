use ballz::fixed::{divide, isqrt, saturate, ONE, SECOND};
use ballz::vector::{direction_of, norm_of, Vec2};

#[test]
fn saturate_clamps_at_both_ends() {
    assert_eq!(saturate(0), 0);
    assert_eq!(saturate(-17), -17);
    assert_eq!(saturate(2_147_483_647), i32::MAX);
    assert_eq!(saturate(2_147_483_648), i32::MAX);
    assert_eq!(saturate(-2_147_483_648), i32::MIN);
    assert_eq!(saturate(-2_147_483_649), i32::MIN);
    assert_eq!(saturate(i128::MAX), i32::MAX);
    assert_eq!(saturate(i128::MIN), i32::MIN);
}

#[test]
fn divide_rounds_toward_zero() {
    assert_eq!(divide(7, 2), 3);
    assert_eq!(divide(-7, 2), -3);
    assert_eq!(divide(6, 3), 2);
    assert_eq!(divide(-6, 3), -2);
    assert_eq!(divide(-1, 5), 0);
    assert_eq!(divide(0, 9), 0);
}

#[test]
fn isqrt_rounds_down() {
    assert_eq!(isqrt(0), 0);
    assert_eq!(isqrt(1), 1);
    assert_eq!(isqrt(2), 1);
    assert_eq!(isqrt(3), 1);
    assert_eq!(isqrt(4), 2);
    assert_eq!(isqrt(15), 3);
    assert_eq!(isqrt(16), 4);
    assert_eq!(isqrt(17), 4);
    assert_eq!(isqrt(10_000_000_000), 100_000);
    assert_eq!(isqrt(9_999_999_999), 99_999);
    assert_eq!(isqrt(u128::MAX), u64::MAX);
}

#[test]
fn isqrt_brackets_its_argument() {
    let mut n: u128 = 1;
    for _ in 0..120 {
        let r = isqrt(n) as u128;
        assert!(r * r <= n);
        assert!((r + 1) * (r + 1) > n);
        n = n * 2 + 1;
    }
}

#[test]
fn units_are_decimal() {
    assert_eq!(ONE, 100_000);
    assert_eq!(SECOND, 1_000_000_000);
}

#[test]
fn norm_is_the_rounded_length() {
    assert_eq!(norm_of(0, 0), 0);
    assert_eq!(norm_of(3, 4), 5);
    assert_eq!(norm_of(-300_000, 400_000), 500_000);
    assert_eq!(norm_of(1, 1), 1);
    assert_eq!(norm_of(20_000, -10_000), 22_360);
    assert_eq!(norm_of(-4_294_967_295, 0), 4_294_967_295);
    assert_eq!(norm_of(i64::MAX, 0), 9_223_372_036_854_775_807);
    assert_eq!(norm_of(i64::MIN, i64::MIN), 13_043_817_825_332_782_212);
}

#[test]
fn direction_is_a_unit_component() {
    assert_eq!(direction_of(300_000, 500_000), 60_000);
    assert_eq!(direction_of(-400_000, 500_000), -80_000);
    assert_eq!(direction_of(-1, 3), -33_333);
    assert_eq!(direction_of(5, 5), ONE);
    assert_eq!(direction_of(-5, 5), -ONE);
    assert_eq!(direction_of(0, 0), 0);
    assert_eq!(direction_of(0, 7), 0);
}

#[test]
fn vectors_add_and_subtract_with_saturation() {
    let a = Vec2::new(5, -7);
    let b = Vec2::new(-2, 10);
    assert_eq!(a.plus(b), Vec2::new(3, 3));
    assert_eq!(a.minus(b), Vec2::new(7, -17));
    let top = Vec2::new(i32::MAX, i32::MIN);
    assert_eq!(top.plus(Vec2::new(1, -1)), Vec2::new(i32::MAX, i32::MIN));
    assert_eq!(top.minus(Vec2::new(-1, 1)), Vec2::new(i32::MAX, i32::MIN));
    assert_eq!(Vec2::zero(), Vec2::new(0, 0));
}

#[test]
fn perp_turns_by_a_quarter() {
    assert_eq!(Vec2::new(1, 2).perp(), Vec2::new(-2, 1));
    assert_eq!(Vec2::new(ONE, 0).perp(), Vec2::new(0, ONE));
    assert_eq!(Vec2::new(0, ONE).perp(), Vec2::new(-ONE, 0));
    assert_eq!(Vec2::new(3, i32::MIN).perp(), Vec2::new(i32::MAX, 3));
}
