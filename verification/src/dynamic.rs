//! Dynamic input operator: the stateless variant of the input driver.
//!
//! One partition per worker, built exactly once; no loads input, no snapshot
//! output, no primary routing. The epoch-advance and backpressure discipline
//! is the same as the partitioned operator's, end-of-input tears the
//! partition down without a final snapshot, and an abort sets the shared
//! flag.

use vstd::prelude::*;

use crate::clock::EpochInterval;
use crate::errors::CallKind;
use crate::errors::StepError;
use crate::errors::UserError;
use crate::keys::ResumeEpoch;
use crate::keys::WorkerCount;
use crate::keys::WorkerIndex;
use crate::operator::default_next_awake;
use crate::operator::frontier_less_than;
use crate::operator::probe_less_than;
use crate::operator::BatchResult;
use crate::operator::ItemBatch;
use crate::operator::ScheduleAction;

verus! {

/// A user-built stateless partition: like a stateful one, minus the
/// snapshot.
pub trait StatelessPartition {
    /// Items the partition produces.
    type Item;

    /// Poll for the next batch; `sched_millis` echoes the awake time this
    /// poll was scheduled for, if any.
    fn next_batch(&mut self, now_millis: i64, sched_millis: Option<i64>) -> Result<
        BatchResult<Self::Item>,
        UserError,
    >;

    /// Advisory next wall-clock instant to poll again.
    fn next_awake(&self) -> Result<Option<i64>, UserError>;

    /// Best-effort teardown.
    fn close(&mut self);
}

/// A user source that builds one stateless partition per worker.
pub trait DynamicSource {
    /// The partition type this source builds.
    type Part: StatelessPartition;

    /// Build this worker's partition; called exactly once per worker.
    fn build(&mut self, now_millis: i64, index: WorkerIndex, count: WorkerCount) -> Result<
        Self::Part,
        UserError,
    >;
}

/// Live state of this worker's single partition.
pub struct DynamicPartState<P> {
    pub part: P,
    pub output_cap: u64,
    pub epoch_started: i64,
    pub next_awake: Option<i64>,
}

impl<P> DynamicPartState<P> {
    /// The capability at or past the resume epoch and a sane epoch clock
    /// start.
    pub open spec fn wf(self, start_at: u64) -> bool {
        &&& self.output_cap >= start_at
        &&& 0 <= self.epoch_started
    }

    /// The partition wants to be polled at `now`.
    pub open spec fn awake_due_spec(self, now: int) -> bool {
        match self.next_awake {
            None => true,
            Some(na) => now >= na,
        }
    }

    /// Executable form of `awake_due_spec`.
    pub fn awake_due(&self, now: i64) -> (r: bool)
        ensures
            r == self.awake_due_spec(now as int),
    {
        match self.next_awake {
            None => true,
            Some(next_awake) => now >= next_awake,
        }
    }
}

/// What one activation of the dynamic input asks the dataflow to do.
pub struct DynActions<I> {
    pub items: Option<ItemBatch<I>>,
    pub abort: bool,
    pub schedule: ScheduleAction,
}

/// Per-worker driver for a dynamic source.
pub struct DynamicInputOp<P: StatelessPartition> {
    pub step_id: String,
    pub epoch_interval: EpochInterval,
    pub start_at: ResumeEpoch,
    pub part_state: Option<DynamicPartState<P>>,
}

impl<P: StatelessPartition> DynamicInputOp<P> {
    pub open spec fn wf(self) -> bool {
        &&& self.epoch_interval.wf()
        &&& match self.part_state {
            Some(st) => st.wf(self.start_at.0),
            None => true,
        }
    }

    /// Build this worker's partition and start it at the resume epoch.
    pub fn new<Src: DynamicSource<Part = P>>(
        source: &mut Src,
        step_id: String,
        epoch_interval: EpochInterval,
        start_at: ResumeEpoch,
        now: i64,
        index: WorkerIndex,
        count: WorkerCount,
    ) -> (r: Result<Self, StepError>)
        requires
            epoch_interval.wf(),
            0 <= now < i64::MAX,
        ensures
            match r {
                Ok(op) => {
                    &&& op.wf()
                    &&& op.step_id == step_id
                    &&& op.epoch_interval == epoch_interval
                    &&& op.start_at == start_at
                    &&& (op.part_state matches Some(st) && st.output_cap == start_at.0
                        && st.epoch_started == now)
                },
                Err(e) => e.step_id == step_id,
            },
    {
        let part = match source.build(now, index, count) {
            Ok(p) => p,
            Err(cause) => {
                return Err(StepError { step_id, key: None, during: CallKind::Build, cause });
            },
        };
        let next_awake = match part.next_awake() {
            Ok(v) => v,
            Err(cause) => {
                return Err(StepError { step_id, key: None, during: CallKind::NextAwake, cause });
            },
        };
        Ok(
            DynamicInputOp {
                step_id,
                epoch_interval,
                start_at,
                part_state: Some(
                    DynamicPartState { part, output_cap: start_at.0, epoch_started: now, next_awake },
                ),
            },
        )
    }

    /// One activation: poll the partition under the backpressure and awake
    /// gates, advance the epoch once the interval has elapsed, tear the
    /// partition down on end-of-input, and say when to run again.
    ///
    /// Items are emitted only at an epoch the downstream probe has fully
    /// processed, and never below the resume epoch.
    pub fn activate(&mut self, now: i64, probe_frontier: &Vec<u64>) -> (r: Result<
        DynActions<P::Item>,
        StepError,
    >)
        requires
            old(self).wf(),
            0 <= now < i64::MAX,
        ensures
            final(self).wf(),
            final(self).step_id == old(self).step_id,
            final(self).epoch_interval == old(self).epoch_interval,
            final(self).start_at == old(self).start_at,
            match r {
                Ok(acts) => {
                    // Backpressure: nothing is emitted at an epoch the probe
                    // still reports in-flight work below, nor below the
                    // resume epoch; a batch comes out at the partition's
                    // pre-advance epoch.
                    &&& (acts.items matches Some(b) ==> !frontier_less_than(
                        probe_frontier@,
                        b.epoch,
                    ) && b.epoch >= old(self).start_at.0)
                    &&& (acts.items matches Some(b) ==> (old(self).part_state matches Some(st0)
                        && b.epoch == st0.output_cap))
                    // Already torn down: nothing happens.
                    &&& (old(self).part_state is None ==> final(self).part_state is None
                        && acts.items is None && !acts.abort)
                    // Backpressure and the awake gate freeze the partition.
                    &&& (old(self).part_state matches Some(st0) && (frontier_less_than(
                        probe_frontier@,
                        st0.output_cap,
                    ) || !st0.awake_due_spec(now as int)) ==> (final(self).part_state
                        == old(self).part_state && acts.items is None && !acts.abort))
                    // A poll whose gates cleared produced an outcome: a
                    // batch, the end of the input, or an abort request.
                    &&& (old(self).part_state matches Some(st0) && !frontier_less_than(
                        probe_frontier@,
                        st0.output_cap,
                    ) && st0.awake_due_spec(now as int) ==> (acts.items is Some
                        || final(self).part_state is None || acts.abort))
                    // When the partition survives a poll whose gates cleared,
                    // its epoch advances by exactly one and its epoch clock
                    // restarts exactly when the interval has elapsed (and the
                    // counter has room); otherwise both stand still. The
                    // epoch never goes backward.
                    &&& (old(self).part_state matches Some(st0)
                        ==> (final(self).part_state matches Some(st) ==> {
                        let polled = !frontier_less_than(probe_frontier@, st0.output_cap)
                            && st0.awake_due_spec(now as int);
                        let advance_due = now - st0.epoch_started
                            >= old(self).epoch_interval.millis && st0.output_cap < u64::MAX;
                        &&& st.output_cap >= st0.output_cap
                        &&& ((polled && advance_due) ==> (st.output_cap == st0.output_cap + 1
                            && st.epoch_started == now))
                        &&& (!(polled && advance_due) ==> (st.output_cap == st0.output_cap
                            && st.epoch_started == st0.epoch_started))
                    }))
                    // Torn down: stay idle. Otherwise honor the partition's
                    // awake request, immediately when it has none or is
                    // already due.
                    &&& (final(self).part_state is None ==> acts.schedule == ScheduleAction::Idle)
                    &&& (final(self).part_state matches Some(st) ==> acts.schedule
                        == ScheduleAction::After(
                        match st.next_awake {
                            None => 0,
                            Some(na) => if na <= now {
                                0
                            } else {
                                (na - now) as i64
                            },
                        },
                    ))
                },
                Err(e) => {
                    &&& e.step_id == old(self).step_id
                    // Errors come only out of user calls, which happen only
                    // for a live partition whose gates have cleared: without
                    // one, activation always succeeds.
                    &&& (old(self).part_state matches Some(st0) && !frontier_less_than(
                        probe_frontier@,
                        st0.output_cap,
                    ) && st0.awake_due_spec(now as int))
                },
            },
    {
        let mut items_out: Option<ItemBatch<P::Item>> = None;
        let mut abort_flag = false;
        let mut eof = false;
        let taken = self.part_state.take();
        match taken {
            None => {},
            Some(mut st) => {
                let epoch = st.output_cap;
                let probe_blocked = probe_less_than(probe_frontier, epoch);
                if !probe_blocked && st.awake_due(now) {
                    let sched = st.next_awake;
                    let batch_res = match st.part.next_batch(now, sched) {
                        Ok(b) => b,
                        Err(cause) => {
                            return Err(
                                StepError {
                                    step_id: self.step_id.clone(),
                                    key: None,
                                    during: CallKind::NextBatch,
                                    cause,
                                },
                            );
                        },
                    };
                    match batch_res {
                        BatchResult::Batch(items) => {
                            let batch_len = items.len();
                            items_out = Some(ItemBatch { epoch, items });
                            let next_awake_res = match st.part.next_awake() {
                                Ok(v) => v,
                                Err(cause) => {
                                    return Err(
                                        StepError {
                                            step_id: self.step_id.clone(),
                                            key: None,
                                            during: CallKind::NextAwake,
                                            cause,
                                        },
                                    );
                                },
                            };
                            st.next_awake = default_next_awake(next_awake_res, batch_len, now);
                        },
                        BatchResult::Eof => {
                            eof = true;
                        },
                        BatchResult::Abort => {
                            abort_flag = true;
                        },
                    }
                    // Advance only once downstream has caught up, else a slow
                    // consumer would let epochs fly past without any polling.
                    if now - st.epoch_started >= self.epoch_interval.millis && st.output_cap
                        < u64::MAX {
                        let next_epoch = st.output_cap + 1;
                        st.epoch_started = now;
                        st.output_cap = next_epoch;
                    }
                }
                if eof {
                    st.part.close();
                } else {
                    self.part_state = Some(st);
                }
            },
        }
        let schedule = match &self.part_state {
            None => ScheduleAction::Idle,
            Some(st) => {
                match st.next_awake {
                    None => ScheduleAction::After(0),
                    Some(next_awake) => {
                        // Already late for the next poll: run immediately.
                        let delay = if next_awake <= now {
                            0
                        } else {
                            next_awake - now
                        };
                        ScheduleAction::After(delay)
                    },
                }
            },
        };
        Ok(DynActions { items: items_out, abort: abort_flag, schedule })
    }
}

} // verus!
