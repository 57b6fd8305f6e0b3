//! Input-ingestion and windowing core of an epoch-synchronized streaming
//! dataflow.
//!
//! Logical time advances in `u64` epochs; wall-clock instants and durations
//! are carried as `i64` milliseconds. The crate provides the epoch clock,
//! deterministic primary assignment for partitions, the partitioned and
//! dynamic input operator state machines, and the sliding windower.

pub mod clock;
pub mod dynamic;
pub mod errors;
pub mod keys;
pub mod math;
pub mod operator;
pub mod registry;
pub mod sorted;
pub mod window;

use vstd::prelude::*;

verus! {

/// Largest magnitude, in milliseconds, of any wall-clock instant or duration
/// the windowing arithmetic accepts. Roughly eleven centuries on either side
/// of the epoch; wide enough for any real timestamp while leaving room to
/// add and scale times in `i64` without overflow.
pub const MAX_TIME_MILLIS: i64 = 0x2000_0000_0000;

} // verus!
