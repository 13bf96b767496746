use gravity_sim::color::Color;
use gravity_sim::fixed::{divide, isqrt, saturate, Fixed, SCALE};
use gravity_sim::vector::{gap, Vec3};

fn raw(x: i64) -> Fixed {
    Fixed::from_raw(x)
}

#[test]
fn scale_is_a_billion() {
    assert_eq!(SCALE, 1_000_000_000);
    assert_eq!(Fixed::one().raw, 1_000_000_000);
    assert_eq!(Fixed::zero().raw, 0);
    assert_eq!(Fixed::from_int(-3).raw, -3_000_000_000);
    assert_eq!(Fixed::from_int(i32::MAX).raw, 2_147_483_647_000_000_000);
    assert_eq!(Fixed::from_int(i32::MIN).raw, -2_147_483_648_000_000_000);
}

#[test]
fn is_zero_tells_zero_only() {
    assert!(Fixed::zero().is_zero());
    assert!(!raw(1).is_zero());
    assert!(!raw(-1).is_zero());
}

#[test]
fn plus_and_minus_are_exact_in_range() {
    assert_eq!(raw(5).plus(raw(-7)), raw(-2));
    assert_eq!(raw(5).minus(raw(-7)), raw(12));
    assert_eq!(Fixed::from_int(2).plus(Fixed::from_int(3)), Fixed::from_int(5));
}

#[test]
fn plus_and_minus_saturate() {
    assert_eq!(raw(i64::MAX).plus(raw(1)), raw(i64::MAX));
    assert_eq!(raw(i64::MIN).plus(raw(-1)), raw(i64::MIN));
    assert_eq!(raw(i64::MIN).minus(raw(1)), raw(i64::MIN));
    assert_eq!(raw(i64::MAX).minus(raw(i64::MIN)), raw(i64::MAX));
    assert_eq!(raw(0).minus(raw(i64::MIN)), raw(i64::MAX));
}

#[test]
fn times_rounds_toward_zero() {
    assert_eq!(Fixed::from_int(2).times(Fixed::from_int(3)), Fixed::from_int(6));
    assert_eq!(raw(1_500_000_000).times(raw(1_500_000_000)), raw(2_250_000_000));
    assert_eq!(raw(1).times(raw(999_999_999)), raw(0));
    assert_eq!(raw(-1).times(raw(999_999_999)), raw(0));
    assert_eq!(raw(3).times(raw(500_000_000)), raw(1));
    assert_eq!(raw(-3).times(raw(500_000_000)), raw(-1));
    assert_eq!(raw(-3).times(raw(-500_000_000)), raw(1));
}

#[test]
fn times_saturates() {
    assert_eq!(raw(i64::MAX).times(Fixed::from_int(2)), raw(i64::MAX));
    assert_eq!(raw(i64::MAX).times(Fixed::from_int(-2)), raw(i64::MIN));
    assert_eq!(raw(i64::MIN).times(raw(i64::MIN)), raw(i64::MAX));
}

#[test]
fn over_rounds_toward_zero() {
    assert_eq!(Fixed::from_int(1).over(Fixed::from_int(2)), raw(500_000_000));
    assert_eq!(Fixed::from_int(1).over(Fixed::from_int(3)), raw(333_333_333));
    assert_eq!(Fixed::from_int(-1).over(Fixed::from_int(3)), raw(-333_333_333));
    assert_eq!(Fixed::from_int(1).over(Fixed::from_int(-3)), raw(-333_333_333));
    assert_eq!(Fixed::from_int(-2).over(Fixed::from_int(-3)), raw(666_666_666));
    assert_eq!(raw(0).over(raw(-5)), raw(0));
}

#[test]
fn over_saturates() {
    assert_eq!(Fixed::from_int(i32::MAX).over(raw(1)), raw(i64::MAX));
    assert_eq!(Fixed::from_int(i32::MIN).over(raw(1)), raw(i64::MIN));
}

#[test]
fn checked_over_refuses_zero() {
    assert_eq!(Fixed::from_int(1).checked_over(Fixed::zero()), None);
    assert_eq!(
        Fixed::from_int(1).checked_over(Fixed::from_int(4)),
        Some(raw(250_000_000))
    );
}

#[test]
fn divide_and_saturate_helpers() {
    assert_eq!(divide(7, 2), 3);
    assert_eq!(divide(-7, 2), -3);
    assert_eq!(divide(7, -2), -3);
    assert_eq!(divide(-7, -2), 3);
    assert_eq!(divide(i128::MAX, -1), -i128::MAX);
    assert_eq!(divide(-i128::MAX, i128::MAX), -1);
    assert_eq!(divide(0, -9), 0);
    assert_eq!(saturate(5), 5);
    assert_eq!(saturate(i64::MAX as i128 + 1), i64::MAX);
    assert_eq!(saturate(i64::MIN as i128 - 1), i64::MIN);
}

#[test]
fn isqrt_rounds_down() {
    assert_eq!(isqrt(0), 0);
    assert_eq!(isqrt(1), 1);
    assert_eq!(isqrt(3), 1);
    assert_eq!(isqrt(4), 2);
    assert_eq!(isqrt(24), 4);
    assert_eq!(isqrt(25), 5);
    assert_eq!(isqrt(1_000_000_000_000_000_000), 1_000_000_000);
    assert_eq!(isqrt(u128::MAX), u64::MAX);
    assert_eq!(isqrt((u64::MAX as u128) * (u64::MAX as u128) - 1), u64::MAX - 1);
}

#[test]
fn gap_is_the_distance_of_two_coordinates() {
    assert_eq!(gap(5, 3), 2);
    assert_eq!(gap(3, 5), 2);
    assert_eq!(gap(i64::MAX, i64::MIN), u64::MAX);
    assert_eq!(gap(i64::MIN, i64::MAX), u64::MAX);
    assert_eq!(gap(-4, -4), 0);
}

#[test]
fn vector_arithmetic_is_componentwise() {
    let a = Vec3::from_ints(1, 2, 3);
    let b = Vec3::from_ints(10, 20, 30);
    assert_eq!(a.plus(b), Vec3::from_ints(11, 22, 33));
    assert_eq!(a.minus(b), Vec3::from_ints(-9, -18, -27));
    assert_eq!(a.scaled(Fixed::from_int(-2)), Vec3::from_ints(-2, -4, -6));
    assert_eq!(b.over(Fixed::from_int(10)), Vec3::from_ints(1, 2, 3));
    assert_eq!(Vec3::one(), Vec3::from_ints(1, 1, 1));
    assert_eq!(Vec3::zero(), Vec3::from_ints(0, 0, 0));
    assert_eq!(
        Vec3::new(raw(1), raw(2), raw(3)),
        Vec3 { x: raw(1), y: raw(2), z: raw(3) }
    );
}

#[test]
fn vector_length_and_direction() {
    let v = Vec3::from_ints(3, 4, 0);
    assert_eq!(v.square_sum(), 25_000_000_000_000_000_000);
    assert_eq!(v.length(), 5_000_000_000);
    assert_eq!(
        v.normalized(),
        Vec3::new(raw(600_000_000), raw(800_000_000), raw(0))
    );
    assert_eq!(
        Vec3::from_ints(0, 0, -7).normalized(),
        Vec3::from_ints(0, 0, -1)
    );
    assert_eq!(Vec3::zero().normalized(), Vec3::zero());
    assert_eq!(Vec3::zero().length(), 0);
    assert!(Vec3::zero().is_zero());
    assert!(!Vec3::new(raw(0), raw(0), raw(1)).is_zero());
    // (1, 1, 1) has length 1.732050807..., so each component of its
    // direction is 0.577350269, rounded down.
    assert_eq!(Vec3::one().length(), 1_732_050_807);
    assert_eq!(
        Vec3::one().normalized(),
        Vec3::new(raw(577_350_269), raw(577_350_269), raw(577_350_269))
    );
}

#[test]
fn vector_of_extreme_components_has_a_length() {
    let v = Vec3::new(raw(i64::MIN), raw(i64::MIN), raw(i64::MIN));
    assert_eq!(
        v.square_sum(),
        3 * (1u128 << 126)
    );
    assert_eq!(v.length(), 15_975_348_984_942_515_101);
}

#[test]
fn within_includes_the_boundary_and_closer_than_does_not() {
    let a = Vec3::from_ints(0, 0, 0);
    let b = Vec3::from_ints(3, 4, 0);
    assert!(a.within(b, Fixed::from_int(2), Fixed::from_int(3)));
    assert!(!a.closer_than(b, Fixed::from_int(2), Fixed::from_int(3)));
    assert!(a.closer_than(b, Fixed::from_int(2), raw(3_000_000_001)));
    assert!(!a.within(b, Fixed::from_int(2), raw(2_999_999_999)));
    assert!(a.within(a, Fixed::zero(), Fixed::zero()));
    assert!(!a.closer_than(a, Fixed::zero(), Fixed::zero()));
    assert!(!a.within(a, Fixed::from_int(1), Fixed::from_int(-2)));
    assert!(!a.closer_than(b, Fixed::from_int(-20), Fixed::from_int(-30)));
}

#[test]
fn within_decides_at_the_ends_of_the_range() {
    let low = Vec3::new(raw(i64::MIN), raw(i64::MIN), raw(i64::MIN));
    let high = Vec3::new(raw(i64::MAX), raw(i64::MAX), raw(i64::MAX));
    assert!(!low.within(high, raw(i64::MAX), raw(i64::MAX)));
    assert!(!low.closer_than(high, raw(i64::MAX), raw(i64::MAX)));
    let along = Vec3::new(raw(i64::MAX), raw(i64::MIN), raw(i64::MIN));
    // The two points lie 2^64 - 1 apart, and the reach is 2^64 - 2.
    assert!(!low.within(along, raw(i64::MAX), raw(i64::MAX)));
    assert!(low.within(low, raw(i64::MAX), raw(i64::MAX)));
}

#[test]
fn colours_blend_linearly() {
    let red = Color::new(
        Fixed::one(),
        Fixed::zero(),
        Fixed::zero(),
        Fixed::one(),
    );
    let blue = Color::new(
        Fixed::zero(),
        Fixed::zero(),
        Fixed::one(),
        Fixed::one(),
    );
    assert_eq!(red.mix(blue, Fixed::zero()), red);
    assert_eq!(red.mix(blue, Fixed::one()), blue);
    assert_eq!(
        red.mix(blue, raw(250_000_000)),
        Color::new(raw(750_000_000), raw(0), raw(250_000_000), Fixed::one())
    );
    assert_eq!(
        Color::white(),
        Color::new(Fixed::one(), Fixed::one(), Fixed::one(), Fixed::one())
    );
}
