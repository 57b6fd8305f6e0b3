//! Sliding windower behavior over concrete times: window intersection in
//! every configuration class (overlapping, tumbling, gapped), late-item
//! routing, and draining at a watermark.

use chrono::TimeZone;
use chrono::Utc;

use inflow::window::InsertError;
use inflow::window::SlidingWindower;
use inflow::window::WindowKey;
use inflow::window::WindowMetadata;

fn utc_ms(h: u32, min: u32, s: u32) -> i64 {
    Utc.with_ymd_and_hms(2023, 3, 16, h, min, s)
        .unwrap()
        .timestamp_millis()
}

fn secs(s: i64) -> i64 {
    chrono::Duration::seconds(s).num_milliseconds()
}

/// A windower aligned to 2023-03-16 09:00:00 UTC.
fn make_windower(length_s: i64, offset_s: i64) -> SlidingWindower {
    SlidingWindower::new(secs(length_s), secs(offset_s), utc_ms(9, 0, 0)).unwrap()
}

#[test]
fn test_intersect_overlap_offset_divisible_by_length_bulk_positive() {
    let windower = make_windower(10, 5);
    //              9:00:13
    //              I
    // [0--------)
    //      [1--------)
    //           [2--------)
    //                [3--------)
    let item_time = utc_ms(9, 0, 13);
    assert_eq!(
        windower.intersects(item_time),
        vec![
            (WindowKey(1), utc_ms(9, 0, 5), utc_ms(9, 0, 15)),
            (WindowKey(2), utc_ms(9, 0, 10), utc_ms(9, 0, 20)),
        ]
    );
}

#[test]
fn test_intersect_overlap_offset_divisible_by_length_bulk_negative() {
    let windower = make_windower(10, 5);
    //             8:59:57
    //             I
    // [--------3)
    //      [--------2)
    //           [--------1)
    //                [0--------)
    let item_time = utc_ms(8, 59, 57);
    assert_eq!(
        windower.intersects(item_time),
        vec![
            (WindowKey(-2), utc_ms(8, 59, 50), utc_ms(9, 0, 0)),
            (WindowKey(-1), utc_ms(8, 59, 55), utc_ms(9, 0, 5)),
        ]
    );
}

#[test]
fn test_intersect_overlap_offset_divisible_by_length_bulk_zero_negative() {
    let windower = make_windower(10, 5);
    //              9:00:03
    //              I
    // [--------2)
    //      [--------1)
    //           [0--------)
    //                [1--------)
    let item_time = utc_ms(9, 0, 3);
    assert_eq!(
        windower.intersects(item_time),
        vec![
            (WindowKey(-1), utc_ms(8, 59, 55), utc_ms(9, 0, 5)),
            (WindowKey(0), utc_ms(9, 0, 0), utc_ms(9, 0, 10)),
        ]
    );
}

#[test]
fn test_intersect_overlap_offset_divisible_by_length_bulk_zero_positive() {
    let windower = make_windower(10, 5);
    //             9:00:07
    //             I
    // [--------1)
    //      [0--------)
    //           [1--------)
    //                [2--------)
    let item_time = utc_ms(9, 0, 7);
    assert_eq!(
        windower.intersects(item_time),
        vec![
            (WindowKey(0), utc_ms(9, 0, 0), utc_ms(9, 0, 10)),
            (WindowKey(1), utc_ms(9, 0, 5), utc_ms(9, 0, 15)),
        ]
    );
}

#[test]
fn test_intersect_overlap_offset_divisible_by_length_edge_positive() {
    let windower = make_windower(10, 5);
    //                9:00:15
    //                I
    // [0--------)
    //      [1--------)
    //           [2--------)
    //                [3--------)
    //                     [4--------)
    let item_time = utc_ms(9, 0, 15);
    assert_eq!(
        windower.intersects(item_time),
        vec![
            (WindowKey(2), utc_ms(9, 0, 10), utc_ms(9, 0, 20)),
            (WindowKey(3), utc_ms(9, 0, 15), utc_ms(9, 0, 25)),
        ]
    );
}

#[test]
fn test_intersect_overlap_offset_divisible_by_length_edge_negative() {
    let windower = make_windower(10, 5);
    //           8:59:55
    //           I
    // [--------3)
    //      [--------2)
    //           [--------1)
    //                [0--------)
    let item_time = utc_ms(8, 59, 55);
    assert_eq!(
        windower.intersects(item_time),
        vec![
            (WindowKey(-2), utc_ms(8, 59, 50), utc_ms(9, 0, 0)),
            (WindowKey(-1), utc_ms(8, 59, 55), utc_ms(9, 0, 5)),
        ]
    );
}

#[test]
fn test_intersect_overlap_offset_divisible_by_length_edge_start_zero() {
    let windower = make_windower(10, 5);
    //           9:00:00
    //           I
    // [--------2)
    //      [--------1)
    //           [0--------)
    //                [1--------)
    let item_time = utc_ms(9, 0, 0);
    assert_eq!(
        windower.intersects(item_time),
        vec![
            (WindowKey(-1), utc_ms(8, 59, 55), utc_ms(9, 0, 5)),
            (WindowKey(0), utc_ms(9, 0, 0), utc_ms(9, 0, 10)),
        ]
    );
}

#[test]
fn test_intersect_overlap_offset_divisible_by_length_edge_end_zero() {
    let windower = make_windower(10, 5);
    //           9:00:10
    //           I
    // [0--------)
    //      [1--------)
    //           [2--------)
    //                [3--------)
    let item_time = utc_ms(9, 0, 10);
    assert_eq!(
        windower.intersects(item_time),
        vec![
            (WindowKey(1), utc_ms(9, 0, 5), utc_ms(9, 0, 15)),
            (WindowKey(2), utc_ms(9, 0, 10), utc_ms(9, 0, 20)),
        ]
    );
}

#[test]
fn test_intersect_overlap_offset_indivisible_by_length_bulk_positive() {
    let windower = make_windower(10, 3);
    //            9:00:11
    //            I
    // [0--------)
    //    [1--------)
    //       [2--------)
    //          [3--------)
    //             [4--------)
    let item_time = utc_ms(9, 0, 11);
    assert_eq!(
        windower.intersects(item_time),
        vec![
            (WindowKey(1), utc_ms(9, 0, 3), utc_ms(9, 0, 13)),
            (WindowKey(2), utc_ms(9, 0, 6), utc_ms(9, 0, 16)),
            (WindowKey(3), utc_ms(9, 0, 9), utc_ms(9, 0, 19)),
        ]
    );
}

#[test]
fn test_intersect_overlap_offset_indivisible_by_length_bulk_negative() {
    let windower = make_windower(10, 3);
    //            8:59:59
    //            I
    // [--------4)
    //    [--------3)
    //       [--------2)
    //          [--------1)
    //             [0--------)
    let item_time = utc_ms(8, 59, 59);
    assert_eq!(
        windower.intersects(item_time),
        vec![
            (WindowKey(-3), utc_ms(8, 59, 51), utc_ms(9, 0, 1)),
            (WindowKey(-2), utc_ms(8, 59, 54), utc_ms(9, 0, 4)),
            (WindowKey(-1), utc_ms(8, 59, 57), utc_ms(9, 0, 7)),
        ]
    );
}

#[test]
fn test_intersect_overlap_offset_indivisible_by_length_bulk_zero() {
    let windower = make_windower(10, 3);
    //            9:00:05
    //            I
    // [--------2)
    //    [--------1)
    //       [0--------)
    //          [1--------)
    //             [2--------)
    let item_time = utc_ms(9, 0, 5);
    assert_eq!(
        windower.intersects(item_time),
        vec![
            (WindowKey(-1), utc_ms(8, 59, 57), utc_ms(9, 0, 7)),
            (WindowKey(0), utc_ms(9, 0, 0), utc_ms(9, 0, 10)),
            (WindowKey(1), utc_ms(9, 0, 3), utc_ms(9, 0, 13)),
        ]
    );
}

#[test]
fn test_intersect_overlap_offset_indivisible_by_length_edge_start_positive() {
    let windower = make_windower(10, 7);
    //               9:00:14
    //               I
    // [0--------)
    //        [1--------)
    //               [2--------)
    let item_time = utc_ms(9, 0, 14);
    assert_eq!(
        windower.intersects(item_time),
        vec![
            (WindowKey(1), utc_ms(9, 0, 7), utc_ms(9, 0, 17)),
            (WindowKey(2), utc_ms(9, 0, 14), utc_ms(9, 0, 24)),
        ]
    );
}

#[test]
fn test_intersect_overlap_offset_indivisible_by_length_edge_start_negative() {
    let windower = make_windower(10, 7);
    //        8:59:53
    //        I
    // [--------2)
    //        [--------1)
    //               [0--------)
    let item_time = utc_ms(8, 59, 53);
    assert_eq!(
        windower.intersects(item_time),
        vec![
            (WindowKey(-2), utc_ms(8, 59, 46), utc_ms(8, 59, 56)),
            (WindowKey(-1), utc_ms(8, 59, 53), utc_ms(9, 0, 3)),
        ]
    );
}

#[test]
fn test_intersect_overlap_offset_indivisible_by_length_edge_start_zero() {
    let windower = make_windower(10, 7);
    //        9:00:00
    //        I
    // [--------1)
    //        [0--------)
    //               [1--------)
    let item_time = utc_ms(9, 0, 0);
    assert_eq!(
        windower.intersects(item_time),
        vec![
            (WindowKey(-1), utc_ms(8, 59, 53), utc_ms(9, 0, 3)),
            (WindowKey(0), utc_ms(9, 0, 0), utc_ms(9, 0, 10)),
        ]
    );
}

#[test]
fn test_intersect_overlap_offset_indivisible_by_length_edge_end_positive() {
    let windower = make_windower(10, 7);
    //                  9:00:17
    //                  I
    // [0--------)
    //        [1--------)
    //               [2--------)
    let item_time = utc_ms(9, 0, 17);
    assert_eq!(
        windower.intersects(item_time),
        vec![(WindowKey(2), utc_ms(9, 0, 14), utc_ms(9, 0, 24))]
    );
}

#[test]
fn test_intersect_overlap_offset_indivisible_by_length_edge_end_negative() {
    let windower = make_windower(10, 7);
    //           8:59:56
    //           I
    // [--------2)
    //        [--------1)
    //               [0--------)
    let item_time = utc_ms(8, 59, 56);
    assert_eq!(
        windower.intersects(item_time),
        vec![(WindowKey(-1), utc_ms(8, 59, 53), utc_ms(9, 0, 3))]
    );
}

#[test]
fn test_intersect_overlap_offset_indivisible_by_length_edge_end_zero() {
    let windower = make_windower(10, 7);
    //                  9:00:10
    //                  I
    // [--------1)
    //        [0--------)
    //               [1--------)
    let item_time = utc_ms(9, 0, 10);
    assert_eq!(
        windower.intersects(item_time),
        vec![(WindowKey(1), utc_ms(9, 0, 7), utc_ms(9, 0, 17))]
    );
}

#[test]
fn test_intersect_tumble_bulk_positive() {
    let windower = make_windower(10, 10);
    //                9:00:15
    //                I
    // [0--------)
    //           [1--------)
    //                     [2--------)
    let item_time = utc_ms(9, 0, 15);
    assert_eq!(
        windower.intersects(item_time),
        vec![(WindowKey(1), utc_ms(9, 0, 10), utc_ms(9, 0, 20))]
    );
}

#[test]
fn test_intersect_tumble_bulk_negative() {
    let windower = make_windower(10, 10);
    //                8:59:55
    //                I
    // [--------2)
    //           [--------1)
    //                     [0--------)
    let item_time = utc_ms(8, 59, 55);
    assert_eq!(
        windower.intersects(item_time),
        vec![(WindowKey(-1), utc_ms(8, 59, 50), utc_ms(9, 0, 0))]
    );
}

#[test]
fn test_intersect_tumble_bulk_zero() {
    let windower = make_windower(10, 10);
    //                9:00:05
    //                I
    // [--------1)
    //           [0--------)
    //                     [1--------)
    let item_time = utc_ms(9, 0, 5);
    assert_eq!(
        windower.intersects(item_time),
        vec![(WindowKey(0), utc_ms(9, 0, 0), utc_ms(9, 0, 10))]
    );
}

#[test]
fn test_intersect_tumble_edge_positive() {
    let windower = make_windower(10, 10);
    //                     9:00:20
    //                     I
    // [0--------)
    //           [1--------)
    //                     [2--------)
    //                               [3--------)
    let item_time = utc_ms(9, 0, 20);
    assert_eq!(
        windower.intersects(item_time),
        vec![(WindowKey(2), utc_ms(9, 0, 20), utc_ms(9, 0, 30))]
    );
}

#[test]
fn test_intersect_tumble_edge_negative() {
    let windower = make_windower(10, 10);
    //                     8:59:50
    //                     I
    // [--------3)
    //           [--------2)
    //                     [--------1)
    //                               [0--------)
    let item_time = utc_ms(8, 59, 50);
    assert_eq!(
        windower.intersects(item_time),
        vec![(WindowKey(-1), utc_ms(8, 59, 50), utc_ms(9, 0, 0))]
    );
}

#[test]
fn test_intersect_tumble_edge_zero_start() {
    let windower = make_windower(10, 10);
    //           9:00:00
    //           I
    // [--------1)
    //           [0--------)
    //                     [1--------)
    let item_time = utc_ms(9, 0, 0);
    assert_eq!(
        windower.intersects(item_time),
        vec![(WindowKey(0), utc_ms(9, 0, 0), utc_ms(9, 0, 10))]
    );
}

#[test]
fn test_intersect_tumble_edge_zero_end() {
    let windower = make_windower(10, 10);
    //                     9:00:10
    //                     I
    // [--------1)
    //           [0--------)
    //                     [1--------)
    //                               [2--------)
    let item_time = utc_ms(9, 0, 10);
    assert_eq!(
        windower.intersects(item_time),
        vec![(WindowKey(1), utc_ms(9, 0, 10), utc_ms(9, 0, 20))]
    );
}

#[test]
fn test_intersect_gap_bulk_positive() {
    let windower = make_windower(10, 13);
    //                   9:00:18
    //                   I
    // [0--------)
    //              [1--------)
    //                           [2--------)
    let item_time = utc_ms(9, 0, 18);
    assert_eq!(
        windower.intersects(item_time),
        vec![(WindowKey(1), utc_ms(9, 0, 13), utc_ms(9, 0, 23))]
    );
}

#[test]
fn test_intersect_gap_bulk_negative() {
    let windower = make_windower(10, 13);
    //                   8:59:48
    //                   I
    // [--------2)
    //              [--------1)
    //                           [0--------)
    let item_time = utc_ms(8, 59, 48);
    assert_eq!(
        windower.intersects(item_time),
        vec![(WindowKey(-1), utc_ms(8, 59, 47), utc_ms(8, 59, 57))]
    );
}

#[test]
fn test_intersect_gap_bulk_zero() {
    let windower = make_windower(10, 13);
    //                   9:00:03
    //                   I
    // [--------1)
    //              [0--------)
    //                           [1--------)
    let item_time = utc_ms(9, 0, 3);
    assert_eq!(
        windower.intersects(item_time),
        vec![(WindowKey(0), utc_ms(9, 0, 0), utc_ms(9, 0, 10))]
    );
}

#[test]
fn test_intersect_gap_gap_positive() {
    let windower = make_windower(10, 13);
    //             9:00:12
    //             I
    // [0--------)
    //              [1--------)
    let item_time = utc_ms(9, 0, 12);
    assert_eq!(windower.intersects(item_time), vec![]);
}

#[test]
fn test_intersect_gap_gap_negative() {
    let windower = make_windower(10, 13);
    //             8:59:59
    //             I
    // [--------1)
    //              [0--------)
    let item_time = utc_ms(8, 59, 59);
    assert_eq!(windower.intersects(item_time), vec![]);
}

#[test]
fn test_intersect_gap_edge_start_positive() {
    let windower = make_windower(10, 13);
    //              9:00:13
    //              I
    // [0--------)
    //              [1--------)
    //                           [2--------)
    let item_time = utc_ms(9, 0, 13);
    assert_eq!(
        windower.intersects(item_time),
        vec![(WindowKey(1), utc_ms(9, 0, 13), utc_ms(9, 0, 23))]
    );
}

#[test]
fn test_intersect_gap_edge_start_negative() {
    let windower = make_windower(10, 13);
    //              8:59:47
    //              I
    // [--------2)
    //              [--------1)
    //                           [0--------)
    let item_time = utc_ms(8, 59, 47);
    assert_eq!(
        windower.intersects(item_time),
        vec![(WindowKey(-1), utc_ms(8, 59, 47), utc_ms(8, 59, 57))]
    );
}

#[test]
fn test_intersect_gap_edge_start_zero() {
    let windower = make_windower(10, 13);
    //              9:00:00
    //              I
    // [--------1)
    //              [0--------)
    //                           [1--------)
    let item_time = utc_ms(9, 0, 0);
    assert_eq!(
        windower.intersects(item_time),
        vec![(WindowKey(0), utc_ms(9, 0, 0), utc_ms(9, 0, 10))]
    );
}

#[test]
fn test_intersect_gap_edge_end_positive() {
    let windower = make_windower(10, 13);
    //                        9:00:23
    //                        I
    // [0--------)
    //              [1--------)
    //                           [2--------)
    let item_time = utc_ms(9, 0, 23);
    assert_eq!(windower.intersects(item_time), vec![]);
}

#[test]
fn test_intersect_gap_edge_end_negative() {
    let windower = make_windower(10, 13);
    //                        8:59:57
    //                        I
    // [--------2)
    //              [--------1)
    //                           [0--------)
    let item_time = utc_ms(8, 59, 57);
    assert_eq!(windower.intersects(item_time), vec![]);
}

#[test]
fn test_intersect_gap_edge_end_zero() {
    let windower = make_windower(10, 13);
    //                        9:00:10
    //                        I
    // [--------1)
    //              [0--------)
    //                           [1--------)
    let item_time = utc_ms(9, 0, 10);
    assert_eq!(windower.intersects(item_time), vec![]);
}

#[test]
fn test_insert() {
    let mut windower = make_windower(10, 5);
    //                  9:00:17
    //                  W
    //              9:00:13
    //              I
    // [0--------)
    //      [1--------)
    //           [2--------)
    //                [3--------)
    let watermark = utc_ms(9, 0, 17);
    let item_time = utc_ms(9, 0, 13);
    assert_eq!(
        windower.insert(watermark, item_time),
        vec![Err(InsertError::Late(WindowKey(1))), Ok(WindowKey(2))]
    );
}

#[test]
fn test_drain_closed() {
    let mut windower = make_windower(10, 5);
    //     9:00:04      9:00:17
    //     W1           W2
    //              9:00:13
    //              I
    // [0--------)
    //      [1--------)
    //           [2--------)
    //                [3--------)
    let watermark1 = utc_ms(9, 0, 4);
    let item_time = utc_ms(9, 0, 13);
    let _ = windower.insert(watermark1, item_time);

    let watermark2 = utc_ms(9, 0, 17);
    assert_eq!(
        windower.drain_closed(watermark2),
        vec![(
            WindowKey(1),
            WindowMetadata {
                open_time: utc_ms(9, 0, 5),
                close_time: utc_ms(9, 0, 15),
            }
        )]
    );
}
