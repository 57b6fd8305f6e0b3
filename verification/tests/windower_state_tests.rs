//! Windower registry state: snapshot and restore, repeated drains, the next
//! close time, metadata lookup, and configuration validation.

use chrono::TimeZone;
use chrono::Utc;

use inflow::errors::ConfigError;
use inflow::window::SlidingWindower;
use inflow::window::WindowKey;
use inflow::window::WindowMetadata;

fn utc_ms(h: u32, min: u32, s: u32) -> i64 {
    Utc.with_ymd_and_hms(2023, 3, 16, h, min, s)
        .unwrap()
        .timestamp_millis()
}

fn secs(s: i64) -> i64 {
    chrono::Duration::seconds(s).num_milliseconds()
}

fn make_windower(length_s: i64, offset_s: i64) -> SlidingWindower {
    SlidingWindower::new(secs(length_s), secs(offset_s), utc_ms(9, 0, 0)).unwrap()
}

#[test]
fn snapshot_restore_round_trip() {
    let mut windower = make_windower(10, 5);
    let _ = windower.insert(utc_ms(9, 0, 0), utc_ms(9, 0, 13));
    let snap = windower.snapshot();
    let restored = SlidingWindower::restore(windower.config, snap);
    assert_eq!(restored.close_times, windower.close_times);
    assert_eq!(restored.config, windower.config);
}

#[test]
fn snapshot_of_empty_windower_restores_empty() {
    let windower = make_windower(10, 5);
    let restored = SlidingWindower::restore(windower.config, windower.snapshot());
    assert!(restored.is_empty());
}

#[test]
fn drain_closed_twice_returns_empty_second_time() {
    let mut windower = make_windower(10, 5);
    let _ = windower.insert(utc_ms(9, 0, 4), utc_ms(9, 0, 13));
    let watermark = utc_ms(9, 0, 17);
    let first = windower.drain_closed(watermark);
    assert_eq!(first.len(), 1);
    let second = windower.drain_closed(watermark);
    assert_eq!(second, vec![]);
}

#[test]
fn next_close_is_earliest_close_time() {
    let mut windower = make_windower(10, 5);
    assert_eq!(windower.next_close(), None);
    // Windows 1 and 2 intersect 9:00:13; the earlier closes at 9:00:15.
    let _ = windower.insert(utc_ms(9, 0, 0), utc_ms(9, 0, 13));
    assert_eq!(windower.next_close(), Some(utc_ms(9, 0, 15)));
}

#[test]
fn get_metadata_reports_tracked_windows_only() {
    let mut windower = make_windower(10, 5);
    let _ = windower.insert(utc_ms(9, 0, 0), utc_ms(9, 0, 13));
    assert_eq!(
        windower.get_metadata(WindowKey(1)),
        Some(WindowMetadata {
            open_time: utc_ms(9, 0, 5),
            close_time: utc_ms(9, 0, 15),
        })
    );
    assert_eq!(windower.get_metadata(WindowKey(5)), None);
}

#[test]
fn is_empty_tracks_inserts_and_drains() {
    let mut windower = make_windower(10, 5);
    assert!(windower.is_empty());
    let _ = windower.insert(utc_ms(9, 0, 0), utc_ms(9, 0, 13));
    assert!(!windower.is_empty());
    let _ = windower.drain_closed(utc_ms(10, 0, 0));
    assert!(windower.is_empty());
}

#[test]
fn snapshot_matches_accepts_own_snapshots() {
    let mut windower = make_windower(10, 5);
    let _ = windower.insert(utc_ms(9, 0, 0), utc_ms(9, 0, 13));
    let config = windower.config;
    let snap = windower.snapshot();
    assert!(SlidingWindower::snapshot_matches(&config, &snap));
}

#[test]
fn snapshot_matches_rejects_foreign_boundaries() {
    let mut windower = make_windower(10, 5);
    let _ = windower.insert(utc_ms(9, 0, 0), utc_ms(9, 0, 13));
    let config = windower.config;
    let mut snap = windower.snapshot();
    snap.entries[0].1.close_time += 1;
    assert!(!SlidingWindower::snapshot_matches(&config, &snap));
}

#[test]
fn snapshot_matches_rejects_unsorted_registries() {
    let mut windower = make_windower(10, 5);
    let _ = windower.insert(utc_ms(9, 0, 0), utc_ms(9, 0, 13));
    let config = windower.config;
    let mut snap = windower.snapshot();
    snap.entries.swap(0, 1);
    assert!(!SlidingWindower::snapshot_matches(&config, &snap));
}

#[test]
fn non_positive_durations_are_config_errors() {
    assert_eq!(
        SlidingWindower::new(0, secs(5), 0).unwrap_err(),
        ConfigError::NonPositiveDuration
    );
    assert_eq!(
        SlidingWindower::new(secs(10), -1, 0).unwrap_err(),
        ConfigError::NonPositiveDuration
    );
}

#[test]
fn out_of_range_alignment_is_config_error() {
    assert_eq!(
        SlidingWindower::new(secs(10), secs(5), i64::MAX).unwrap_err(),
        ConfigError::TimeOutOfRange
    );
}

#[test]
fn item_at_open_time_is_included() {
    let windower = make_windower(10, 10);
    // 9:00:20 opens window 2 exactly.
    let hits = windower.intersects(utc_ms(9, 0, 20));
    assert_eq!(hits, vec![(WindowKey(2), utc_ms(9, 0, 20), utc_ms(9, 0, 30))]);
}

#[test]
fn item_at_close_time_is_excluded() {
    let windower = make_windower(10, 10);
    // 9:00:10 closes window 0 exactly; only window 1 contains it.
    let hits = windower.intersects(utc_ms(9, 0, 10));
    assert_eq!(hits, vec![(WindowKey(1), utc_ms(9, 0, 10), utc_ms(9, 0, 20))]);
}
