//! Mathematical division helpers and the default next-awake rule.

use inflow::math::div_ceil_i64;
use inflow::math::div_floor_i64;
use inflow::operator::default_next_awake;

#[test]
fn floor_division_rounds_toward_minus_infinity() {
    assert_eq!(div_floor_i64(7, 3), 2);
    assert_eq!(div_floor_i64(-7, 3), -3);
    assert_eq!(div_floor_i64(6, 3), 2);
    assert_eq!(div_floor_i64(-6, 3), -2);
    assert_eq!(div_floor_i64(0, 3), 0);
}

#[test]
fn ceiling_division_rounds_toward_plus_infinity() {
    assert_eq!(div_ceil_i64(7, 3), 3);
    assert_eq!(div_ceil_i64(-7, 3), -2);
    assert_eq!(div_ceil_i64(6, 3), 2);
    assert_eq!(div_ceil_i64(0, 3), 0);
}

#[test]
fn explicit_next_awake_is_obliged() {
    assert_eq!(default_next_awake(Some(42), 0, 100), Some(42));
    assert_eq!(default_next_awake(Some(42), 9, 100), Some(42));
}

#[test]
fn nonempty_batch_repolls_immediately() {
    assert_eq!(default_next_awake(None, 3, 100), None);
}

#[test]
fn empty_batch_waits_a_cooldown() {
    assert_eq!(default_next_awake(None, 0, 100), Some(101));
}
