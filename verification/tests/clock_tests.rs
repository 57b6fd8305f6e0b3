//! Epoch clock: duration-to-epoch-count conversion and its boundaries.

use inflow::clock::EpochInterval;
use inflow::errors::ConfigError;

#[test]
fn test_epochs_per() {
    let found = EpochInterval::new(5000).unwrap().epochs_per(12000);
    assert_eq!(found, 3);
}

#[test]
fn test_epochs_per_zero() {
    let found = EpochInterval::new(5000).unwrap().epochs_per(0);
    assert_eq!(found, 0);
}

#[test]
fn epochs_per_exact_interval_is_one() {
    let interval = EpochInterval::new(5000).unwrap();
    assert_eq!(interval.epochs_per(5000), 1);
}

#[test]
fn epochs_per_just_past_interval_is_two() {
    let interval = EpochInterval::new(5000).unwrap();
    assert_eq!(interval.epochs_per(5001), 2);
    assert_eq!(interval.epochs_per(10000), 2);
}

#[test]
fn non_positive_interval_is_config_error() {
    assert_eq!(
        EpochInterval::new(0).unwrap_err(),
        ConfigError::NonPositiveDuration
    );
    assert_eq!(
        EpochInterval::new(-7).unwrap_err(),
        ConfigError::NonPositiveDuration
    );
}

#[test]
fn default_interval_is_ten_seconds() {
    assert_eq!(EpochInterval::default().millis, 10_000);
}
