//! Epoch clock: one process-wide positive interval that converts wall-clock
//! durations into counts of epochs.
//!
//! Epoch boundaries are the synchronization points between workers: state
//! snapshots are taken at each boundary, and the epoch doubles as the unit
//! of backpressure.

use vstd::prelude::*;

use crate::errors::ConfigError;
use crate::math::ceil_div;
use crate::math::div_ceil_i64;
use crate::math::lemma_ceil_div_bounds;

verus! {

/// Length of an epoch, in milliseconds; always positive.
#[derive(Clone, Copy, Debug, PartialEq, Eq, Structural)]
pub struct EpochInterval {
    pub millis: i64,
}

impl EpochInterval {
    pub open spec fn wf(self) -> bool {
        self.millis > 0
    }

    /// A validated epoch interval; a non-positive duration is a fatal
    /// configuration error.
    pub fn new(millis: i64) -> (r: Result<EpochInterval, ConfigError>)
        ensures
            match r {
                Ok(iv) => millis > 0 && iv.millis == millis,
                Err(e) => millis <= 0 && e == ConfigError::NonPositiveDuration,
            },
    {
        if millis <= 0 {
            Err(ConfigError::NonPositiveDuration)
        } else {
            Ok(EpochInterval { millis })
        }
    }

    /// How many epochs, rounded up, fit in a non-negative duration: zero
    /// exactly when the duration is zero. Used to pick garbage-collection
    /// commit cadences.
    pub fn epochs_per(&self, duration_millis: i64) -> (n: u64)
        requires
            self.wf(),
            duration_millis >= 0,
        ensures
            n == ceil_div(duration_millis as int, self.millis as int),
            n == 0 <==> duration_millis == 0,
    {
        proof {
            lemma_ceil_div_bounds(duration_millis as int, self.millis as int);
            assert(0 <= ceil_div(duration_millis as int, self.millis as int) <= duration_millis
                && (duration_millis > 0 ==> ceil_div(duration_millis as int, self.millis as int)
                >= 1)) by (nonlinear_arith)
                requires
                    self.millis >= 1,
                    duration_millis >= 0,
                    duration_millis <= self.millis * ceil_div(
                        duration_millis as int,
                        self.millis as int,
                    ) < duration_millis + self.millis,
            ;
        }
        let q = div_ceil_i64(duration_millis, self.millis);
        q as u64
    }
}

impl Default for EpochInterval {
    /// The default epoch interval: ten seconds.
    fn default() -> (r: Self)
        ensures
            r.millis == 10_000,
    {
        EpochInterval { millis: 10_000 }
    }
}

/// At interval boundaries the epoch count steps exactly once: a zero
/// duration needs no epochs, a full interval needs one, and any duration
/// past one interval by at most another interval needs two.
pub proof fn lemma_epochs_per_boundaries(interval: int, excess: int)
    requires
        interval > 0,
        0 < excess <= interval,
    ensures
        ceil_div(0, interval) == 0,
        ceil_div(interval, interval) == 1,
        ceil_div(interval + excess, interval) == 2,
{
    vstd::arithmetic::div_mod::lemma_fundamental_div_mod_converse(
        interval - 1,
        interval,
        0,
        interval - 1,
    );
    assert(2 * interval - 1 == 1 * interval + (interval - 1)) by (nonlinear_arith);
    vstd::arithmetic::div_mod::lemma_fundamental_div_mod_converse(
        2 * interval - 1,
        interval,
        1,
        interval - 1,
    );
    assert(interval + excess + interval - 1 == 2 * interval + (excess - 1)) by (nonlinear_arith);
    vstd::arithmetic::div_mod::lemma_fundamental_div_mod_converse(
        interval + excess + interval - 1,
        interval,
        2,
        excess - 1,
    );
}

} // verus!
