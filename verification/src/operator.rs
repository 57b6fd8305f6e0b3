//! Partitioned input operator: the per-worker driver that builds the
//! partitions this worker is primary for, pumps batches out of them, advances
//! their epochs on a wall-clock cadence, emits exactly one recovery snapshot
//! per epoch advance, and honors downstream backpressure.
//!
//! The operator is a state machine. The surrounding dataflow hands each
//! activation the wall-clock time, the freshly arrived primary assignments
//! and recovered snapshots, and the current input and probe frontiers as
//! plain antichains; the operator returns the items and snapshots to emit and
//! when it wants to run again. User-supplied sources and partitions enter
//! through the [`FixedPartitionedSource`] and [`StatefulPartition`] traits.

use vstd::prelude::*;

use crate::clock::EpochInterval;
use crate::errors::CallKind;
use crate::errors::StepError;
use crate::errors::UserError;
use crate::keys::ResumeEpoch;
use crate::keys::StateKey;
use crate::keys::WorkerIndex;
use crate::sorted::has_key;
use crate::sorted::insert_key;
use crate::sorted::keys_sorted;

verus! {

/// Wall-clock cooldown, in milliseconds, before re-polling a partition whose
/// batch came back empty.
pub const DEFAULT_COOLDOWN_MILLIS: i64 = 1;

/// What one `next_batch` call produced: a batch of items, the end of this
/// partition's input, or a cooperative abort of the whole execution.
pub enum BatchResult<I> {
    Batch(Vec<I>),
    Eof,
    Abort,
}

/// A recoverable state update for one partition: a new state or a deletion.
pub enum StateChange<S> {
    Upsert(S),
    Delete,
}

/// Record emitted on the snapshot output: which step, which partition, and
/// the state change to persist.
pub struct Snapshot<S> {
    pub step_id: String,
    pub key: StateKey,
    pub change: StateChange<S>,
}

/// A user-built partition of a fixed partitioned source. Implementations
/// live with the application; the operator drives them through this trait
/// and promises nothing about what they return.
pub trait StatefulPartition {
    /// Items the partition produces.
    type Item;

    /// Opaque resume state written to and read from the recovery store.
    type Resume;

    /// Poll for the next batch; `sched_millis` echoes the awake time this
    /// poll was scheduled for, if any.
    fn next_batch(&mut self, now_millis: i64, sched_millis: Option<i64>) -> Result<
        BatchResult<Self::Item>,
        UserError,
    >;

    /// Advisory next wall-clock instant to poll again.
    fn next_awake(&self) -> Result<Option<i64>, UserError>;

    /// Current resume state; pure and idempotent within an epoch.
    fn snapshot(&self) -> Result<Self::Resume, UserError>;

    /// Best-effort teardown.
    fn close(&mut self);
}

/// A user source with a fixed set of partitions.
pub trait FixedPartitionedSource {
    /// The partition type this source builds.
    type Part: StatefulPartition;

    /// All partitions this worker could host; pure, called once per worker.
    fn list_parts(&self) -> Result<Vec<StateKey>, UserError>;

    /// Build one partition, resuming from recovered state when given.
    fn build_part(
        &mut self,
        now_millis: i64,
        for_part: StateKey,
        resume_state: Option<<Self::Part as StatefulPartition>::Resume>,
    ) -> Result<Self::Part, UserError>;
}

// ---------------------------------------------------------------------------
// Frontiers, handed in as plain antichains of epochs.
// ---------------------------------------------------------------------------

/// Some time in the frontier is strictly less than `e`: data at an epoch
/// below `e` may still be in flight.
pub open spec fn frontier_less_than(f: Seq<u64>, e: u64) -> bool {
    exists|i: int| 0 <= i < f.len() && #[trigger] f[i] < e
}

/// Every time in the frontier is strictly greater than `e`: no more input
/// at or before `e` can arrive.
pub open spec fn frontier_is_closed(f: Seq<u64>, e: u64) -> bool {
    forall|i: int| 0 <= i < f.len() ==> #[trigger] f[i] > e
}

/// An empty frontier: the input has ended.
pub open spec fn frontier_is_eof(f: Seq<u64>) -> bool {
    f.len() == 0
}

/// Whether data strictly below `e` may still be in flight, as a probe
/// answers it.
pub fn probe_less_than(frontier: &Vec<u64>, e: u64) -> (r: bool)
    ensures
        r == frontier_less_than(frontier@, e),
{
    let len = frontier.len();
    let mut i: usize = 0;
    while i < len
        invariant
            len == frontier@.len(),
            0 <= i <= len,
            forall|m: int| 0 <= m < i ==> #[trigger] frontier@[m] >= e,
        decreases len - i,
    {
        if frontier[i] < e {
            proof {
                assert(frontier@[i as int] < e);
            }
            return true;
        }
        i = i + 1;
    }
    false
}

/// Whether epoch `e` is closed: no further input at or before it.
pub fn epoch_closed(frontier: &Vec<u64>, e: u64) -> (r: bool)
    ensures
        r == frontier_is_closed(frontier@, e),
{
    let len = frontier.len();
    let mut i: usize = 0;
    while i < len
        invariant
            len == frontier@.len(),
            0 <= i <= len,
            forall|m: int| 0 <= m < i ==> #[trigger] frontier@[m] > e,
        decreases len - i,
    {
        if frontier[i] <= e {
            proof {
                assert(frontier@[i as int] <= e);
            }
            return false;
        }
        i = i + 1;
    }
    true
}

/// Whether the input behind this frontier has ended.
pub fn frontier_eof(frontier: &Vec<u64>) -> (r: bool)
    ensures
        r == frontier_is_eof(frontier@),
{
    frontier.len() == 0
}

// ---------------------------------------------------------------------------
// The default next-awake rule.
// ---------------------------------------------------------------------------

/// The next-awake rule: oblige an explicit request from the source;
/// otherwise re-poll immediately after a non-empty batch, and only after a
/// cooldown when the batch was empty.
pub fn default_next_awake(res: Option<i64>, batch_len: usize, now: i64) -> (r: Option<i64>)
    requires
        0 <= now < i64::MAX,
    ensures
        r == (match res {
            Some(t) => Some(t),
            None => if batch_len > 0 {
                None::<i64>
            } else {
                Some((now + DEFAULT_COOLDOWN_MILLIS) as i64)
            },
        }),
{
    match res {
        Some(next_awake) => Some(next_awake),
        None => {
            if batch_len > 0 {
                None
            } else {
                Some(now + DEFAULT_COOLDOWN_MILLIS)
            }
        },
    }
}

// ---------------------------------------------------------------------------
// Per-partition state.
// ---------------------------------------------------------------------------

/// Live state of one partition this worker is primary for. The two
/// capability epochs (downstream and snapshot output) always agree; the
/// ghost `snaps_taken` records the epoch of every snapshot emitted for this
/// partition during this run.
pub struct PartitionedPartState<P> {
    pub part: P,
    pub downstream_cap: u64,
    pub snap_cap: u64,
    pub epoch_started: i64,
    pub next_awake: Option<i64>,
    pub snaps_taken: Ghost<Seq<u64>>,
}

impl<P> PartitionedPartState<P> {
    /// Capabilities aligned and at or past the resume epoch, a sane epoch
    /// clock start, and a strictly increasing snapshot history that stays
    /// below the current epoch and at or past the resume epoch.
    pub open spec fn wf(self, start_at: u64) -> bool {
        &&& self.downstream_cap == self.snap_cap
        &&& self.downstream_cap >= start_at
        &&& 0 <= self.epoch_started
        &&& forall|i: int, j: int|
            0 <= i < j < self.snaps_taken@.len() ==> #[trigger] self.snaps_taken@[i]
                < #[trigger] self.snaps_taken@[j]
        &&& forall|i: int|
            0 <= i < self.snaps_taken@.len() ==> start_at <= #[trigger] self.snaps_taken@[i]
                < self.downstream_cap
    }

    /// The partition wants to be polled at `now`.
    pub open spec fn awake_due_spec(self, now: int) -> bool {
        match self.next_awake {
            None => true,
            Some(na) => now >= na,
        }
    }

    /// Executable form of `awake_due_spec`.
    pub fn awake_due(&self, now: i64) -> (r: bool)
        ensures
            r == self.awake_due_spec(now as int),
    {
        match self.next_awake {
            None => true,
            Some(next_awake) => now >= next_awake,
        }
    }
}

/// Within one run, every snapshot of a partition is emitted at a distinct
/// epoch at or past the resume epoch: the history is strictly increasing,
/// so no epoch repeats.
pub proof fn lemma_at_most_one_snapshot_per_epoch<P>(st: PartitionedPartState<P>, start_at: u64)
    requires
        st.wf(start_at),
    ensures
        forall|i: int, j: int|
            0 <= i < j < st.snaps_taken@.len() ==> #[trigger] st.snaps_taken@[i]
                != #[trigger] st.snaps_taken@[j],
        forall|i: int| 0 <= i < st.snaps_taken@.len() ==> #[trigger] st.snaps_taken@[i] >= start_at,
{
}

/// What polling one partition produced: items to emit at the partition's
/// pre-poll epoch, a state snapshot taken at that epoch, and whether the
/// partition reached the end of its input or requested an abort.
pub struct PollOutcome<I, S> {
    pub emitted: Option<Vec<I>>,
    pub snap: Option<S>,
    pub eof: bool,
    pub abort: bool,
}

/// Poll one partition, honoring the backpressure and awake gates, and
/// advance its epoch (taking a snapshot) when the epoch interval has elapsed
/// or the partition hit end-of-input.
///
/// When `probe_blocked` holds (downstream has not finished the partition's
/// current epoch) or the partition is not yet due, nothing at all happens:
/// no poll, no emission, no snapshot, no epoch advance. The epoch counter is
/// also left in place in the unreachable case that advancing would overflow
/// it.
pub fn poll_partition<P: StatefulPartition>(
    st: &mut PartitionedPartState<P>,
    step_id: &String,
    key: StateKey,
    now: i64,
    epoch_interval: EpochInterval,
    probe_blocked: bool,
    Ghost(start_at): Ghost<u64>,
) -> (r: Result<PollOutcome<P::Item, P::Resume>, StepError>)
    requires
        old(st).wf(start_at),
        0 <= now < i64::MAX,
        epoch_interval.wf(),
    ensures
        match r {
            Ok(out) => {
                &&& final(st).wf(start_at)
                // Backpressure and the awake gate freeze the partition.
                &&& (probe_blocked || !old(st).awake_due_spec(now as int)) ==> (out.emitted
                    is None && out.snap is None && !out.eof && !out.abort && *final(st) == *old(
                    st,
                ))
                // Anything that did happen happened after the gates cleared,
                // and a poll whose gates cleared produced exactly one
                // outcome: a batch, the end of the input, or an abort.
                &&& (out.emitted is Some || out.snap is Some || out.eof || out.abort) ==> (
                !probe_blocked && old(st).awake_due_spec(now as int))
                &&& (!probe_blocked && old(st).awake_due_spec(now as int)) ==> (out.emitted
                    is Some || out.eof || out.abort)
                &&& (out.emitted is Some ==> !out.eof && !out.abort)
                &&& !(out.eof && out.abort)
                // End-of-input and abort outcomes emit nothing and leave the
                // poll schedule alone.
                &&& ((out.eof || out.abort) ==> out.emitted is None && final(st).next_awake
                    == old(st).next_awake)
                // Without a snapshot the epoch and history stand still.
                &&& (out.snap is None ==> final(st).downstream_cap == old(st).downstream_cap
                    && final(st).snaps_taken == old(st).snaps_taken && final(st).epoch_started
                    == old(st).epoch_started)
                // A snapshot advances the epoch by one, records the closed
                // epoch in the history, and restarts the epoch clock.
                &&& (out.snap is Some ==> final(st).downstream_cap == old(st).downstream_cap
                    + 1 && final(st).snaps_taken@ == old(st).snaps_taken@.push(
                    old(st).downstream_cap,
                ) && final(st).epoch_started == now)
                // When the partition was polled, the snapshot is taken
                // exactly when the interval elapsed or the input ended.
                &&& (!probe_blocked && old(st).awake_due_spec(now as int) && (out.emitted
                    is Some || out.eof || out.abort)) ==> (out.snap is Some <==> ((now - old(
                    st,
                ).epoch_started >= epoch_interval.millis || out.eof) && old(st).downstream_cap
                    < u64::MAX))
            },
            Err(e) => {
                &&& final(st).wf(start_at)
                &&& e.step_id == step_id
                &&& e.key == Some(key)
                // Errors come only out of user calls, which happen only once
                // the gates have cleared: a blocked or not-yet-due partition
                // always polls successfully (by doing nothing).
                &&& !probe_blocked
                &&& old(st).awake_due_spec(now as int)
            },
        },
{
    if probe_blocked || !st.awake_due(now) {
        return Ok(PollOutcome { emitted: None, snap: None, eof: false, abort: false });
    }
    let sched = st.next_awake;
    let batch_res = match st.part.next_batch(now, sched) {
        Ok(b) => b,
        Err(cause) => {
            return Err(
                StepError {
                    step_id: step_id.clone(),
                    key: Some(key),
                    during: CallKind::NextBatch,
                    cause,
                },
            );
        },
    };
    let mut eof = false;
    let mut abort = false;
    let mut emitted: Option<Vec<P::Item>> = None;
    match batch_res {
        BatchResult::Batch(items) => {
            let batch_len = items.len();
            emitted = Some(items);
            let next_awake_res = match st.part.next_awake() {
                Ok(v) => v,
                Err(cause) => {
                    return Err(
                        StepError {
                            step_id: step_id.clone(),
                            key: Some(key),
                            during: CallKind::NextAwake,
                            cause,
                        },
                    );
                },
            };
            st.next_awake = default_next_awake(next_awake_res, batch_len, now);
        },
        BatchResult::Eof => {
            eof = true;
        },
        BatchResult::Abort => {
            abort = true;
        },
    }
    let mut snap: Option<P::Resume> = None;
    if (now - st.epoch_started >= epoch_interval.millis || eof) && st.downstream_cap < u64::MAX {
        let state = match st.part.snapshot() {
            Ok(s) => s,
            Err(cause) => {
                return Err(
                    StepError {
                        step_id: step_id.clone(),
                        key: Some(key),
                        during: CallKind::TakeSnapshot,
                        cause,
                    },
                );
            },
        };
        snap = Some(state);
        let ghost closed_epoch = st.downstream_cap;
        let next_epoch = st.downstream_cap + 1;
        st.downstream_cap = next_epoch;
        st.snap_cap = next_epoch;
        st.epoch_started = now;
        proof {
            st.snaps_taken@ = st.snaps_taken@.push(closed_epoch);
        }
    }
    Ok(PollOutcome { emitted, snap, eof, abort })
}

// ---------------------------------------------------------------------------
// The partition registry held by one operator.
// ---------------------------------------------------------------------------

/// Partitions sorted by strictly increasing key.
pub open spec fn parts_sorted<P>(s: Seq<(StateKey, PartitionedPartState<P>)>) -> bool {
    forall|i: int, j: int| 0 <= i < j < s.len() ==> (#[trigger] s[i]).0.0 < (#[trigger] s[j]).0.0
}

/// Sorted, and every partition's state is well formed.
pub open spec fn parts_wf<P>(s: Seq<(StateKey, PartitionedPartState<P>)>, start_at: u64) -> bool {
    &&& parts_sorted(s)
    &&& forall|i: int| 0 <= i < s.len() ==> (#[trigger] s[i]).1.wf(start_at)
}

/// Partition `k` is tracked.
pub open spec fn parts_has_key<P>(s: Seq<(StateKey, PartitionedPartState<P>)>, k: u64) -> bool {
    exists|i: int| 0 <= i < s.len() && (#[trigger] s[i]).0.0 == k
}

/// A partition state as freshly built this activation: both capabilities at
/// `epoch`, the epoch clock started at `now`, and no snapshots emitted yet.
/// The awake time is whatever the user partition advised.
pub open spec fn built_part_state<P>(st: PartitionedPartState<P>, epoch: u64, now: int) -> bool {
    &&& st.downstream_cap == epoch
    &&& st.snap_cap == epoch
    &&& st.epoch_started == now
    &&& st.snaps_taken@.len() == 0
}

/// Whether partition `key` is tracked; linear scan.
fn parts_contains<P>(parts: &Vec<(StateKey, PartitionedPartState<P>)>, key: StateKey) -> (r: bool)
    ensures
        r == parts_has_key(parts@, key.0),
{
    let len = parts.len();
    let mut i: usize = 0;
    while i < len
        invariant
            len == parts@.len(),
            0 <= i <= len,
            forall|m: int| 0 <= m < i ==> (#[trigger] parts@[m]).0.0 != key.0,
        decreases len - i,
    {
        if parts[i].0.0 == key.0 {
            proof {
                assert(parts_has_key(parts@, key.0));
            }
            return true;
        }
        i = i + 1;
    }
    proof {
        if parts_has_key(parts@, key.0) {
            let w = choose|w: int| 0 <= w < parts@.len() && (#[trigger] parts@[w]).0.0 == key.0;
            assert(false);
        }
    }
    false
}

/// Insert partition `key` in key order, replacing its state when already
/// tracked.
fn upsert_part<P>(
    parts: &mut Vec<(StateKey, PartitionedPartState<P>)>,
    key: StateKey,
    st: PartitionedPartState<P>,
    Ghost(start_at): Ghost<u64>,
)
    requires
        parts_wf(old(parts)@, start_at),
        st.wf(start_at),
    ensures
        parts_wf(final(parts)@, start_at),
        forall|x: u64|
            #![trigger parts_has_key(final(parts)@, x)]
            #![trigger parts_has_key(old(parts)@, x)]
            parts_has_key(final(parts)@, x) <==> (parts_has_key(old(parts)@, x) || x == key.0),
        // The entry for `key` is exactly `st`; every other entry is carried
        // over unchanged, in both directions.
        forall|i: int|
            0 <= i < final(parts)@.len() ==> {
                &&& ((#[trigger] final(parts)@[i]).0.0 == key.0 ==> final(parts)@[i].1 == st)
                &&& (final(parts)@[i].0.0 != key.0 ==> old(parts)@.contains(final(parts)@[i]))
            },
        forall|j: int|
            0 <= j < old(parts)@.len() && (#[trigger] old(parts)@[j]).0.0 != key.0
                ==> final(parts)@.contains(old(parts)@[j]),
{
    let len = parts.len();
    let mut j: usize = 0;
    while j < len && parts[j].0.0 < key.0
        invariant
            *parts == *old(parts),
            len == parts@.len(),
            0 <= j <= len,
            forall|m: int| 0 <= m < j ==> (#[trigger] parts@[m]).0.0 < key.0,
        decreases len - j,
    {
        j = j + 1;
    }
    let ghost prev = parts@;
    let replacing = j < len && parts[j].0.0 == key.0;
    if replacing {
        let _ = parts.remove(j);
    }
    parts.insert(j, (key, st));
    proof {
        let s = parts@;
        if replacing {
            assert(s == prev.remove(j as int).insert(j as int, (key, st)));
            assert(forall|m: int| 0 <= m < j ==> s[m] == prev[m]);
            assert(forall|m: int| j < m < s.len() ==> s[m] == prev[m]);
            assert(s[j as int] == (key, st));
            assert(s.len() == prev.len());
            assert(forall|m: int| j < m < prev.len() ==> (#[trigger] prev[m]).0.0 > key.0);
            assert forall|i: int| 0 <= i < s.len() && (#[trigger] s[i]).0.0 != key.0 implies
                prev.contains(s[i]) by {
                assert(i != j);
                assert(0 <= i < prev.len() && prev[i] == s[i]);
            }
            assert forall|m: int|
                0 <= m < prev.len() && (#[trigger] prev[m]).0.0 != key.0 implies s.contains(
                prev[m],
            ) by {
                assert(m != j);
                assert(0 <= m < s.len() && s[m] == prev[m]);
            }
            assert(forall|i: int|
                0 <= i < s.len() && (#[trigger] s[i]).0.0 == key.0 ==> s[i].1 == st);
            assert forall|x: u64| parts_has_key(s, x) implies (parts_has_key(prev, x) || x
                == key.0) by {
                let w = choose|w: int| 0 <= w < s.len() && (#[trigger] s[w]).0.0 == x;
                if w != j {
                    assert(prev[w].0.0 == x);
                }
            }
            assert forall|x: u64| parts_has_key(prev, x) implies parts_has_key(s, x) by {
                let w = choose|w: int| 0 <= w < prev.len() && (#[trigger] prev[w]).0.0 == x;
                if w != j {
                    assert(s[w].0.0 == x);
                } else {
                    assert(s[j as int].0.0 == x);
                }
            }
        } else {
            assert(s == prev.insert(j as int, (key, st)));
            assert(forall|m: int| 0 <= m < j ==> s[m] == prev[m]);
            assert(forall|m: int| j < m < s.len() ==> s[m] == prev[m - 1]);
            assert(s[j as int] == (key, st));
            assert(forall|m: int| j <= m < prev.len() ==> (#[trigger] prev[m]).0.0 > key.0);
            assert forall|i: int| 0 <= i < s.len() && (#[trigger] s[i]).0.0 != key.0 implies
                prev.contains(s[i]) by {
                assert(i != j);
                if i < j {
                    assert(0 <= i < prev.len() && prev[i] == s[i]);
                } else {
                    assert(0 <= i - 1 < prev.len() && prev[i - 1] == s[i]);
                }
            }
            assert forall|m: int|
                0 <= m < prev.len() && (#[trigger] prev[m]).0.0 != key.0 implies s.contains(
                prev[m],
            ) by {
                if m < j {
                    assert(0 <= m < s.len() && s[m] == prev[m]);
                } else {
                    assert(0 <= m + 1 < s.len() && s[m + 1] == prev[m]);
                }
            }
            assert(forall|i: int|
                0 <= i < s.len() && (#[trigger] s[i]).0.0 == key.0 ==> s[i].1 == st);
            assert forall|x: u64| parts_has_key(s, x) implies (parts_has_key(prev, x) || x
                == key.0) by {
                let w = choose|w: int| 0 <= w < s.len() && (#[trigger] s[w]).0.0 == x;
                if w < j {
                    assert(prev[w].0.0 == x);
                } else if w > j {
                    assert(prev[w - 1].0.0 == x);
                }
            }
            assert forall|x: u64| parts_has_key(prev, x) implies parts_has_key(s, x) by {
                let w = choose|w: int| 0 <= w < prev.len() && (#[trigger] prev[w]).0.0 == x;
                if w < j {
                    assert(s[w].0.0 == x);
                } else {
                    assert(s[w + 1].0.0 == x);
                }
            }
        }
        assert(parts_has_key(s, key.0));
    }
}

// ---------------------------------------------------------------------------
// Activation inputs and outputs.
// ---------------------------------------------------------------------------

/// A batch of items to emit downstream, all at one epoch.
pub struct ItemBatch<I> {
    pub epoch: u64,
    pub items: Vec<I>,
}

/// One snapshot record to emit at an epoch.
pub struct SnapEmit<S> {
    pub epoch: u64,
    pub snap: Snapshot<S>,
}

/// When the operator wants to be activated next: not at all (awaiting
/// upstream input, or quiescent), or after a delay in milliseconds.
#[derive(Clone, Copy, Debug, PartialEq, Eq, Structural)]
pub enum ScheduleAction {
    Idle,
    After(i64),
}

/// Everything one activation asks the surrounding dataflow to do.
pub struct ActivationActions<I, S> {
    pub items: Vec<ItemBatch<I>>,
    pub snaps: Vec<SnapEmit<S>>,
    /// Keys whose partitions reported end-of-input this activation: each was
    /// snapshotted one final time, closed, and removed from the registry.
    pub eofd_parts: Vec<StateKey>,
    pub abort: bool,
    pub schedule: ScheduleAction,
}

/// The partition cannot be polled now: downstream still owes work below its
/// epoch, or its awake time has not yet come.
pub open spec fn part_gated<P>(st: PartitionedPartState<P>, probe: Seq<u64>, now: int) -> bool {
    frontier_less_than(probe, st.downstream_cap) || !st.awake_due_spec(now)
}

/// An activation that makes no user call at all: no load entry upserts a
/// partition, cold initialization cannot run (the init capabilities are gone
/// or the loads input has not ended), and every partition is blocked or not
/// yet due. Such an activation always succeeds and changes nothing.
pub open spec fn activation_calm<P, S>(
    parts0: Seq<(StateKey, PartitionedPartState<P>)>,
    loads: Seq<(u64, WorkerIndex, StateKey, StateChange<S>)>,
    loads_eof: bool,
    had_init_caps: bool,
    probe: Seq<u64>,
    now: int,
) -> bool {
    &&& (forall|j: int| 0 <= j < loads.len() ==> !((#[trigger] loads[j]).3 is Upsert))
    &&& (!had_init_caps || !loads_eof)
    &&& (forall|i: int| 0 <= i < parts0.len() ==> part_gated((#[trigger] parts0[i]).1, probe, now))
}

/// The instant a partition asks to be polled at, with "unset" meaning right
/// now.
pub open spec fn awake_target<P>(st: PartitionedPartState<P>, now: int) -> int {
    match st.next_awake {
        None => now,
        Some(na) => na as int,
    }
}

/// A load entry carries an upsert for partition `x`.
pub open spec fn loads_upserts<S>(
    s: Seq<(u64, WorkerIndex, StateKey, StateChange<S>)>,
    x: u64,
) -> bool {
    exists|j: int| 0 <= j < s.len() && (#[trigger] s[j]).2.0 == x && s[j].3 is Upsert
}

/// Epoch of the last load entry that upserts partition `k`; meaningful only
/// when `loads_upserts` holds of `k`.
pub open spec fn last_upsert_epoch<S>(
    s: Seq<(u64, WorkerIndex, StateKey, StateChange<S>)>,
    k: u64,
) -> u64
    decreases s.len(),
{
    if s.len() == 0 {
        0
    } else {
        let last = s[s.len() - 1];
        if last.2.0 == k && last.3 is Upsert {
            last.0
        } else {
            last_upsert_epoch(s.drop_last(), k)
        }
    }
}

/// Extending a processed prefix of the loads by one entry changes which keys
/// are upserted, and their last upsert epoch, in the obvious way.
proof fn lemma_upsert_prefix_step<S>(
    s: Seq<(u64, WorkerIndex, StateKey, StateChange<S>)>,
    n: int,
    k: u64,
)
    requires
        0 <= n < s.len(),
    ensures
        loads_upserts(s.take(n + 1), k) == (loads_upserts(s.take(n), k) || (s[n].2.0 == k
            && s[n].3 is Upsert)),
        (s[n].2.0 == k && s[n].3 is Upsert) ==> last_upsert_epoch(s.take(n + 1), k) == s[n].0,
        !(s[n].2.0 == k && s[n].3 is Upsert) ==> last_upsert_epoch(s.take(n + 1), k)
            == last_upsert_epoch(s.take(n), k),
{
    let a = s.take(n + 1);
    assert(a[n] == s[n]);
    assert(a.drop_last() =~= s.take(n));
    if loads_upserts(a, k) {
        let j = choose|j: int| 0 <= j < a.len() && (#[trigger] a[j]).2.0 == k && a[j].3 is Upsert;
        if j < n {
            assert(s.take(n)[j] == a[j]);
            assert(loads_upserts(s.take(n), k));
        }
    }
    if loads_upserts(s.take(n), k) {
        let j = choose|j: int|
            0 <= j < s.take(n).len() && (#[trigger] s.take(n)[j]).2.0 == k && s.take(n)[j].3
                is Upsert;
        assert(a[j] == s.take(n)[j]);
        assert(loads_upserts(a, k));
    }
    if s[n].2.0 == k && s[n].3 is Upsert {
        assert(a[n].2.0 == k && a[n].3 is Upsert);
        assert(loads_upserts(a, k));
    }
}

/// The buffered assignment stream holds entry `e`.
pub open spec fn inbuf_has(s: Seq<(u64, StateKey, WorkerIndex)>, e: (u64, StateKey, WorkerIndex)) -> bool {
    exists|j: int| 0 <= j < s.len() && #[trigger] s[j] == e
}

/// How an activation can come to track partition `x`: it was already
/// tracked, a load entry upserted it, or — once loads ended, while the init
/// capabilities were still held — it was a primary of this worker, either
/// from before or by an assignment whose epoch closed this activation.
pub open spec fn activation_admits<P, S>(
    parts0: Seq<(StateKey, PartitionedPartState<P>)>,
    loads: Seq<(u64, WorkerIndex, StateKey, StateChange<S>)>,
    loads_eof: bool,
    had_init_caps: bool,
    pp0: Seq<StateKey>,
    inbuf_all: Seq<(u64, StateKey, WorkerIndex)>,
    pf: Seq<u64>,
    me: WorkerIndex,
    x: u64,
) -> bool {
    ||| parts_has_key(parts0, x)
    ||| loads_upserts(loads, x)
    ||| (loads_eof && had_init_caps && (has_key(pp0, x) || closed_assignment(
        inbuf_all,
        pf,
        me,
        x,
    )))
}

/// A buffered assignment at a closed epoch names `me` as primary for `x`.
pub open spec fn closed_assignment(
    inbuf: Seq<(u64, StateKey, WorkerIndex)>,
    pf: Seq<u64>,
    me: WorkerIndex,
    x: u64,
) -> bool {
    exists|j: int|
        0 <= j < inbuf.len() && frontier_is_closed(pf, (#[trigger] inbuf[j]).0) && inbuf[j].2 == me
            && inbuf[j].1.0 == x
}

// ---------------------------------------------------------------------------
// The operator.
// ---------------------------------------------------------------------------

/// Per-worker driver for a fixed partitioned source.
pub struct PartitionedInputOp<Src: FixedPartitionedSource> {
    pub step_id: String,
    pub this_worker: WorkerIndex,
    pub epoch_interval: EpochInterval,
    pub start_at: ResumeEpoch,
    pub source: Src,
    /// Epochs of the two capabilities retained until the loads input ends;
    /// they hold the outputs open at the resume epoch for cold partitions.
    pub init_downstream_cap: Option<u64>,
    pub init_snap_cap: Option<u64>,
    pub parts: Vec<(StateKey, PartitionedPartState<Src::Part>)>,
    pub primary_parts: Vec<StateKey>,
    pub primaries_inbuf: Vec<(u64, StateKey, WorkerIndex)>,
}

impl<Src: FixedPartitionedSource> PartitionedInputOp<Src> {
    /// A positive epoch interval, init capabilities that agree and sit at
    /// the resume epoch while they last, a well-formed partition registry,
    /// and an ordered primary set.
    pub open spec fn wf(self) -> bool {
        &&& self.epoch_interval.wf()
        &&& (self.init_downstream_cap is Some <==> self.init_snap_cap is Some)
        &&& (match self.init_downstream_cap {
            Some(e) => e == self.start_at.0,
            None => true,
        })
        &&& (match self.init_snap_cap {
            Some(e) => e == self.start_at.0,
            None => true,
        })
        &&& parts_wf(self.parts@, self.start_at.0)
        &&& keys_sorted(self.primary_parts@)
    }

    /// A fresh operator: both init capabilities held at the resume epoch,
    /// nothing tracked yet.
    pub fn new(
        step_id: String,
        this_worker: WorkerIndex,
        epoch_interval: EpochInterval,
        start_at: ResumeEpoch,
        source: Src,
    ) -> (op: Self)
        requires
            epoch_interval.wf(),
        ensures
            op.wf(),
            op.step_id == step_id,
            op.this_worker == this_worker,
            op.epoch_interval == epoch_interval,
            op.start_at == start_at,
            op.init_downstream_cap == Some(start_at.0),
            op.init_snap_cap == Some(start_at.0),
            op.parts@.len() == 0,
            op.primary_parts@.len() == 0,
            op.primaries_inbuf@.len() == 0,
    {
        PartitionedInputOp {
            step_id,
            this_worker,
            epoch_interval,
            start_at,
            source,
            init_downstream_cap: Some(start_at.0),
            init_snap_cap: Some(start_at.0),
            parts: Vec::new(),
            primary_parts: Vec::new(),
            primaries_inbuf: Vec::new(),
        }
    }

    /// Drain the loads input: every recovered `Upsert` builds its partition
    /// with the recovered state, fast-forwarded to the resume epoch when the
    /// snapshot is older (snapshots from idle epochs can predate it).
    fn handle_loads(
        &mut self,
        now: i64,
        loads_in: &mut Vec<
            (u64, WorkerIndex, StateKey, StateChange<<Src::Part as StatefulPartition>::Resume>),
        >,
    ) -> (r: Result<(), StepError>)
        requires
            old(self).wf(),
            0 <= now < i64::MAX,
            forall|j: int|
                0 <= j < old(loads_in)@.len() ==> (#[trigger] old(loads_in)@[j]).1 == old(
                    self,
                ).this_worker,
        ensures
            final(self).wf(),
            final(self).step_id == old(self).step_id,
            final(self).this_worker == old(self).this_worker,
            final(self).epoch_interval == old(self).epoch_interval,
            final(self).start_at == old(self).start_at,
            final(self).init_downstream_cap == old(self).init_downstream_cap,
            final(self).init_snap_cap == old(self).init_snap_cap,
            final(self).primary_parts == old(self).primary_parts,
            final(self).primaries_inbuf == old(self).primaries_inbuf,
            r is Ok ==> forall|x: u64|
                #![trigger parts_has_key(final(self).parts@, x)]
                #![trigger parts_has_key(old(self).parts@, x)]
                parts_has_key(final(self).parts@, x) <==> (parts_has_key(old(self).parts@, x)
                    || loads_upserts(old(loads_in)@, x)),
            // A partition rebuilt from recovered state starts with both
            // capabilities fast-forwarded to the greater of its last loaded
            // epoch and the resume epoch, a fresh epoch clock, and an empty
            // snapshot history; every other partition is untouched.
            r is Ok ==> forall|i: int|
                0 <= i < final(self).parts@.len() ==> {
                    let k = (#[trigger] final(self).parts@[i]).0.0;
                    &&& (loads_upserts(old(loads_in)@, k) ==> built_part_state(
                        final(self).parts@[i].1,
                        if last_upsert_epoch(old(loads_in)@, k) > old(self).start_at.0 {
                            last_upsert_epoch(old(loads_in)@, k)
                        } else {
                            old(self).start_at.0
                        },
                        now as int,
                    ))
                    &&& (!loads_upserts(old(loads_in)@, k) ==> old(self).parts@.contains(
                        final(self).parts@[i],
                    ))
                },
            // Without an upsert no user call is made: the drain always
            // succeeds and the registry is untouched.
            (forall|j: int|
                0 <= j < old(loads_in)@.len() ==> !((#[trigger] old(loads_in)@[j]).3 is Upsert))
                ==> (r is Ok && final(self).parts == old(self).parts),
            r matches Err(e) ==> e.step_id == old(self).step_id,
    {
        let ghost orig = loads_in@;
        let ghost entry_parts = self.parts@;
        let total = loads_in.len();
        proof {
            assert(orig.len() == total);
        }
        let mut done: usize = 0;
        while loads_in.len() > 0
            invariant
                self.wf(),
                self.step_id == old(self).step_id,
                self.this_worker == old(self).this_worker,
                self.epoch_interval == old(self).epoch_interval,
                self.start_at == old(self).start_at,
                self.init_downstream_cap == old(self).init_downstream_cap,
                self.init_snap_cap == old(self).init_snap_cap,
                self.primary_parts == old(self).primary_parts,
                self.primaries_inbuf == old(self).primaries_inbuf,
                0 <= now < i64::MAX,
                0 <= done <= orig.len() <= usize::MAX,
                orig == old(loads_in)@,
                loads_in@ == orig.skip(done as int),
                forall|x: u64|
                    #![trigger parts_has_key(self.parts@, x)]
                    #![trigger parts_has_key(entry_parts, x)]
                    parts_has_key(self.parts@, x) <==> (parts_has_key(entry_parts, x) || exists|
                        j: int,
                    |
                        0 <= j < done && (#[trigger] orig[j]).2.0 == x && orig[j].3 is Upsert),
                entry_parts == old(self).parts@,
                forall|m: int|
                    0 <= m < self.parts@.len() ==> {
                        let k = (#[trigger] self.parts@[m]).0.0;
                        &&& (loads_upserts(orig.take(done as int), k) ==> built_part_state(
                            self.parts@[m].1,
                            if last_upsert_epoch(orig.take(done as int), k) > self.start_at.0 {
                                last_upsert_epoch(orig.take(done as int), k)
                            } else {
                                self.start_at.0
                            },
                            now as int,
                        ))
                        &&& (!loads_upserts(orig.take(done as int), k) ==> entry_parts.contains(
                            self.parts@[m],
                        ))
                    },
                (forall|j: int| 0 <= j < orig.len() ==> !((#[trigger] orig[j]).3 is Upsert))
                    ==> self.parts == old(self).parts,
            decreases loads_in@.len(),
        {
            let (load_epoch, _worker, key, change) = loads_in.remove(0);
            proof {
                assert(orig.skip(done as int)[0] == orig[done as int]);
                assert(loads_in@ == orig.skip(done as int).remove(0));
                assert(loads_in@ =~= orig.skip(done as int + 1));
            }
            match change {
                StateChange::Upsert(state) => {
                    proof {
                        assert(orig[done as int].3 is Upsert);
                    }
                    let emit_epoch = if load_epoch > self.start_at.0 {
                        load_epoch
                    } else {
                        self.start_at.0
                    };
                    let part = match self.source.build_part(now, key, Some(state)) {
                        Ok(p) => p,
                        Err(cause) => {
                            return Err(
                                StepError {
                                    step_id: self.step_id.clone(),
                                    key: Some(key),
                                    during: CallKind::BuildPart,
                                    cause,
                                },
                            );
                        },
                    };
                    let next_awake = match part.next_awake() {
                        Ok(v) => v,
                        Err(cause) => {
                            return Err(
                                StepError {
                                    step_id: self.step_id.clone(),
                                    key: Some(key),
                                    during: CallKind::NextAwake,
                                    cause,
                                },
                            );
                        },
                    };
                    let st = PartitionedPartState {
                        part,
                        downstream_cap: emit_epoch,
                        snap_cap: emit_epoch,
                        epoch_started: now,
                        next_awake,
                        snaps_taken: Ghost(Seq::empty()),
                    };
                    let ghost pre = self.parts@;
                    upsert_part(&mut self.parts, key, st, Ghost(self.start_at.0));
                    proof {
                        assert(orig[done as int].2.0 == key.0 && orig[done as int].3 is Upsert);
                        assert(orig[done as int].0 == load_epoch);
                        assert forall|m: int| 0 <= m < self.parts@.len() implies {
                            let k = (#[trigger] self.parts@[m]).0.0;
                            &&& (loads_upserts(orig.take(done as int + 1), k) ==> built_part_state(
                                self.parts@[m].1,
                                if last_upsert_epoch(orig.take(done as int + 1), k)
                                    > self.start_at.0 {
                                    last_upsert_epoch(orig.take(done as int + 1), k)
                                } else {
                                    self.start_at.0
                                },
                                now as int,
                            ))
                            &&& (!loads_upserts(orig.take(done as int + 1), k)
                                ==> entry_parts.contains(self.parts@[m]))
                        } by {
                            let e = self.parts@[m];
                            let k = e.0.0;
                            lemma_upsert_prefix_step(orig, done as int, k);
                            if k == key.0 {
                                assert(e.1 == st);
                                assert(last_upsert_epoch(orig.take(done as int + 1), k)
                                    == load_epoch);
                                assert(built_part_state(st, emit_epoch, now as int));
                            } else {
                                assert(pre.contains(e));
                                let w = choose|w: int|
                                    0 <= w < pre.len() && #[trigger] pre[w] == e;
                                assert(pre[w] == e);
                            }
                        }
                    }
                },
                StateChange::Delete => {
                    proof {
                        assert(!(orig[done as int].3 is Upsert));
                        assert forall|m: int| 0 <= m < self.parts@.len() implies {
                            let k = (#[trigger] self.parts@[m]).0.0;
                            &&& (loads_upserts(orig.take(done as int + 1), k) ==> built_part_state(
                                self.parts@[m].1,
                                if last_upsert_epoch(orig.take(done as int + 1), k)
                                    > self.start_at.0 {
                                    last_upsert_epoch(orig.take(done as int + 1), k)
                                } else {
                                    self.start_at.0
                                },
                                now as int,
                            ))
                            &&& (!loads_upserts(orig.take(done as int + 1), k)
                                ==> entry_parts.contains(self.parts@[m]))
                        } by {
                            let k = (self.parts@[m]).0.0;
                            lemma_upsert_prefix_step(orig, done as int, k);
                        }
                    }
                },
            }
            done = done + 1;
        }
        proof {
            assert(done == orig.len());
            assert(orig.take(done as int) =~= orig);
        }
        Ok(())
    }

    /// Fold every assignment whose epoch has closed into this worker's
    /// primary set; keep the rest buffered. Pure bookkeeping: no capability
    /// is involved.
    fn apply_closed_primaries(&mut self, primaries_frontier: &Vec<u64>)
        requires
            old(self).wf(),
        ensures
            final(self).wf(),
            final(self).step_id == old(self).step_id,
            final(self).this_worker == old(self).this_worker,
            final(self).epoch_interval == old(self).epoch_interval,
            final(self).start_at == old(self).start_at,
            final(self).init_downstream_cap == old(self).init_downstream_cap,
            final(self).init_snap_cap == old(self).init_snap_cap,
            final(self).parts == old(self).parts,
            final(self).source == old(self).source,
            forall|e: (u64, StateKey, WorkerIndex)|
                #![trigger inbuf_has(final(self).primaries_inbuf@, e)]
                #![trigger inbuf_has(old(self).primaries_inbuf@, e)]
                inbuf_has(final(self).primaries_inbuf@, e) <==> (inbuf_has(
                    old(self).primaries_inbuf@,
                    e,
                ) && !frontier_is_closed(primaries_frontier@, e.0)),
            forall|x: u64|
                #![trigger has_key(final(self).primary_parts@, x)]
                #![trigger has_key(old(self).primary_parts@, x)]
                has_key(final(self).primary_parts@, x) <==> (has_key(old(self).primary_parts@, x)
                    || closed_assignment(
                    old(self).primaries_inbuf@,
                    primaries_frontier@,
                    old(self).this_worker,
                    x,
                )),
    {
        let ghost orig = self.primaries_inbuf@;
        let ghost entry_pp = self.primary_parts@;
        let len = self.primaries_inbuf.len();
        let mut kept: Vec<(u64, StateKey, WorkerIndex)> = Vec::new();
        let mut m: usize = 0;
        while m < len
            invariant
                self.wf(),
                self.step_id == old(self).step_id,
                self.this_worker == old(self).this_worker,
                self.epoch_interval == old(self).epoch_interval,
                self.start_at == old(self).start_at,
                self.init_downstream_cap == old(self).init_downstream_cap,
                self.init_snap_cap == old(self).init_snap_cap,
                self.parts == old(self).parts,
                self.source == old(self).source,
                orig == self.primaries_inbuf@,
                entry_pp == old(self).primary_parts@,
                len == orig.len(),
                0 <= m <= len,
                forall|e: (u64, StateKey, WorkerIndex)|
                    #[trigger] inbuf_has(kept@, e) ==> exists|j: int|
                        0 <= j < m && #[trigger] orig[j] == e && !frontier_is_closed(
                            primaries_frontier@,
                            e.0,
                        ),
                forall|j: int|
                    0 <= j < m && !frontier_is_closed(primaries_frontier@, (#[trigger] orig[j]).0)
                        ==> inbuf_has(kept@, orig[j]),
                forall|x: u64|
                    #![trigger has_key(self.primary_parts@, x)]
                    #![trigger has_key(entry_pp, x)]
                    has_key(self.primary_parts@, x) <==> (has_key(entry_pp, x) || exists|j: int|
                        0 <= j < m && frontier_is_closed(
                            primaries_frontier@,
                            (#[trigger] orig[j]).0,
                        ) && orig[j].2 == self.this_worker && orig[j].1.0 == x),
            decreases len - m,
        {
            let e = self.primaries_inbuf[m];
            proof {
                assert(orig[m as int] == e);
            }
            if epoch_closed(primaries_frontier, e.0) {
                if e.2 == self.this_worker {
                    insert_key(&mut self.primary_parts, e.1);
                }
            } else {
                let ghost prevk = kept@;
                kept.push(e);
                proof {
                    assert(kept@ == prevk.push(e));
                    assert(forall|j: int| 0 <= j < prevk.len() ==> kept@[j] == prevk[j]);
                    assert(kept@[prevk.len() as int] == e);
                    assert forall|e2: (u64, StateKey, WorkerIndex)|
                        #[trigger] inbuf_has(kept@, e2) implies exists|j: int|
                        0 <= j < m + 1 && #[trigger] orig[j] == e2 && !frontier_is_closed(
                            primaries_frontier@,
                            e2.0,
                        ) by {
                        let w = choose|w: int| 0 <= w < kept@.len() && #[trigger] kept@[w] == e2;
                        if w < prevk.len() {
                            assert(inbuf_has(prevk, e2));
                            let j = choose|j: int|
                                0 <= j < m && #[trigger] orig[j] == e2 && !frontier_is_closed(
                                    primaries_frontier@,
                                    e2.0,
                                );
                            assert(0 <= j < m + 1 && orig[j] == e2);
                        } else {
                            assert(e2 == e);
                            assert(orig[m as int] == e2);
                        }
                    }
                    assert forall|j: int|
                        0 <= j < m + 1 && !frontier_is_closed(
                            primaries_frontier@,
                            (#[trigger] orig[j]).0,
                        ) implies inbuf_has(kept@, orig[j]) by {
                        if j < m {
                            assert(inbuf_has(prevk, orig[j]));
                            let w = choose|w: int|
                                0 <= w < prevk.len() && #[trigger] prevk[w] == orig[j];
                            assert(kept@[w] == orig[j]);
                        } else {
                            assert(kept@[prevk.len() as int] == orig[j]);
                        }
                    }
                }
            }
            m = m + 1;
        }
        self.primaries_inbuf = kept;
        proof {
            assert forall|x: u64|
                has_key(self.primary_parts@, x) <==> (has_key(entry_pp, x) || closed_assignment(
                    orig,
                    primaries_frontier@,
                    self.this_worker,
                    x,
                )) by {
                if closed_assignment(orig, primaries_frontier@, self.this_worker, x) {
                    let j = choose|j: int|
                        0 <= j < orig.len() && frontier_is_closed(
                            primaries_frontier@,
                            (#[trigger] orig[j]).0,
                        ) && orig[j].2 == self.this_worker && orig[j].1.0 == x;
                    assert(has_key(self.primary_parts@, x));
                }
            }
        }
    }

    /// Once the loads input has ended, build every primary partition that
    /// had no recovered state, cold, at the init capabilities' epoch; then
    /// release the init capabilities.
    fn cold_init(&mut self, now: i64) -> (r: Result<(), StepError>)
        requires
            old(self).wf(),
            0 <= now < i64::MAX,
        ensures
            final(self).wf(),
            final(self).step_id == old(self).step_id,
            final(self).this_worker == old(self).this_worker,
            final(self).epoch_interval == old(self).epoch_interval,
            final(self).start_at == old(self).start_at,
            final(self).primary_parts == old(self).primary_parts,
            final(self).primaries_inbuf == old(self).primaries_inbuf,
            r is Ok ==> final(self).init_downstream_cap is None && final(self).init_snap_cap
                is None,
            r is Ok && old(self).init_downstream_cap is Some ==> forall|x: u64|
                #![trigger parts_has_key(final(self).parts@, x)]
                #![trigger parts_has_key(old(self).parts@, x)]
                parts_has_key(final(self).parts@, x) <==> (parts_has_key(old(self).parts@, x)
                    || has_key(old(self).primary_parts@, x)),
            // Already-tracked partitions are untouched; every cold-built one
            // starts with both capabilities exactly at the resume epoch (the
            // init capabilities' epoch), a fresh epoch clock, and an empty
            // snapshot history.
            r is Ok ==> forall|i: int|
                0 <= i < final(self).parts@.len() ==> {
                    &&& (parts_has_key(old(self).parts@, (#[trigger] final(self).parts@[i]).0.0)
                        ==> old(self).parts@.contains(final(self).parts@[i]))
                    &&& (!parts_has_key(old(self).parts@, final(self).parts@[i].0.0)
                        ==> built_part_state(
                        final(self).parts@[i].1,
                        old(self).start_at.0,
                        now as int,
                    ))
                },
            old(self).init_downstream_cap is None ==> r is Ok && final(self).parts
                == old(self).parts,
            r matches Err(e) ==> e.step_id == old(self).step_id,
    {
        let epoch = match self.init_downstream_cap {
            Some(e) => e,
            None => {
                return Ok(());
            },
        };
        let ghost entry_parts = self.parts@;
        let ghost pp = self.primary_parts@;
        let len = self.primary_parts.len();
        let mut i: usize = 0;
        while i < len
            invariant
                self.wf(),
                self.step_id == old(self).step_id,
                self.this_worker == old(self).this_worker,
                self.epoch_interval == old(self).epoch_interval,
                self.start_at == old(self).start_at,
                self.init_downstream_cap == old(self).init_downstream_cap,
                self.init_snap_cap == old(self).init_snap_cap,
                self.init_downstream_cap == Some(epoch),
                self.primary_parts == old(self).primary_parts,
                self.primaries_inbuf == old(self).primaries_inbuf,
                epoch == self.start_at.0,
                0 <= now < i64::MAX,
                pp == self.primary_parts@,
                entry_parts == old(self).parts@,
                len == pp.len(),
                0 <= i <= len,
                forall|x: u64|
                    #![trigger parts_has_key(self.parts@, x)]
                    #![trigger parts_has_key(entry_parts, x)]
                    parts_has_key(self.parts@, x) <==> (parts_has_key(entry_parts, x) || exists|
                        m: int,
                    | 0 <= m < i && (#[trigger] pp[m]).0 == x),
                forall|m: int|
                    0 <= m < self.parts@.len() ==> {
                        &&& (parts_has_key(entry_parts, (#[trigger] self.parts@[m]).0.0)
                            ==> entry_parts.contains(self.parts@[m]))
                        &&& (!parts_has_key(entry_parts, self.parts@[m].0.0) ==> built_part_state(
                            self.parts@[m].1,
                            epoch,
                            now as int,
                        ))
                    },
            decreases len - i,
        {
            let key = self.primary_parts[i];
            proof {
                assert(pp[i as int] == key);
            }
            if !parts_contains(&self.parts, key) {
                let part = match self.source.build_part(now, key, None) {
                    Ok(p) => p,
                    Err(cause) => {
                        return Err(
                            StepError {
                                step_id: self.step_id.clone(),
                                key: Some(key),
                                during: CallKind::BuildPart,
                                cause,
                            },
                        );
                    },
                };
                let next_awake = match part.next_awake() {
                    Ok(v) => v,
                    Err(cause) => {
                        return Err(
                            StepError {
                                step_id: self.step_id.clone(),
                                key: Some(key),
                                during: CallKind::NextAwake,
                                cause,
                            },
                        );
                    },
                };
                let st = PartitionedPartState {
                    part,
                    downstream_cap: epoch,
                    snap_cap: epoch,
                    epoch_started: now,
                    next_awake,
                    snaps_taken: Ghost(Seq::empty()),
                };
                let ghost pre = self.parts@;
                upsert_part(&mut self.parts, key, st, Ghost(self.start_at.0));
                proof {
                    assert forall|m: int| 0 <= m < self.parts@.len() implies {
                        &&& (parts_has_key(entry_parts, (#[trigger] self.parts@[m]).0.0)
                            ==> entry_parts.contains(self.parts@[m]))
                        &&& (!parts_has_key(entry_parts, self.parts@[m].0.0) ==> built_part_state(
                            self.parts@[m].1,
                            epoch,
                            now as int,
                        ))
                    } by {
                        let e = self.parts@[m];
                        if e.0.0 == key.0 {
                            assert(e.1 == st);
                            assert(!parts_has_key(pre, key.0));
                            assert(!parts_has_key(entry_parts, key.0));
                        } else {
                            assert(pre.contains(e));
                            let w = choose|w: int| 0 <= w < pre.len() && #[trigger] pre[w] == e;
                            assert(pre[w] == e);
                        }
                    }
                }
            }
            i = i + 1;
        }
        self.init_downstream_cap = None;
        self.init_snap_cap = None;
        proof {
            assert forall|x: u64|
                parts_has_key(self.parts@, x) <==> (parts_has_key(entry_parts, x) || has_key(
                    pp,
                    x,
                )) by {
                if has_key(pp, x) {
                    let m = choose|m: int| 0 <= m < pp.len() && (#[trigger] pp[m]).0 == x;
                    assert(parts_has_key(self.parts@, x));
                }
            }
        }
        Ok(())
    }

    /// One activation: drain the primaries and loads inputs, apply closed
    /// primary epochs, cold-initialize once loads end, poll each partition
    /// in key order under the backpressure and awake gates, drop partitions
    /// that ended, and say when to run again.
    ///
    /// Items and snapshots are emitted only at epochs the downstream probe
    /// has fully processed, and never below the resume epoch.
    pub fn activate(
        &mut self,
        now: i64,
        primaries_in: Vec<(u64, StateKey, WorkerIndex)>,
        loads_in: Vec<
            (u64, WorkerIndex, StateKey, StateChange<<Src::Part as StatefulPartition>::Resume>),
        >,
        loads_frontier: &Vec<u64>,
        primaries_frontier: &Vec<u64>,
        probe_frontier: &Vec<u64>,
    ) -> (r: Result<
        ActivationActions<
            <Src::Part as StatefulPartition>::Item,
            <Src::Part as StatefulPartition>::Resume,
        >,
        StepError,
    >)
        requires
            old(self).wf(),
            0 <= now < i64::MAX,
            // Routing invariant: loads are exchanged to their key's primary.
            forall|j: int|
                0 <= j < loads_in@.len() ==> (#[trigger] loads_in@[j]).1 == old(self).this_worker,
        ensures
            final(self).wf(),
            final(self).step_id == old(self).step_id,
            final(self).this_worker == old(self).this_worker,
            final(self).epoch_interval == old(self).epoch_interval,
            final(self).start_at == old(self).start_at,
            match r {
                Ok(acts) => {
                    // No emission while the probe says an earlier epoch is
                    // still in flight, and none below the resume epoch.
                    &&& forall|i: int|
                        0 <= i < acts.items@.len() ==> !frontier_less_than(
                            probe_frontier@,
                            (#[trigger] acts.items@[i]).epoch,
                        ) && acts.items@[i].epoch >= old(self).start_at.0
                    &&& forall|i: int|
                        0 <= i < acts.snaps@.len() ==> !frontier_less_than(
                            probe_frontier@,
                            (#[trigger] acts.snaps@[i]).epoch,
                        ) && acts.snaps@[i].epoch >= old(self).start_at.0
                            && acts.snaps@[i].snap.step_id == old(self).step_id
                            && acts.snaps@[i].snap.change is Upsert
                    // The init capabilities are gone once loads ended.
                    &&& (frontier_is_eof(loads_frontier@) ==> final(self).init_downstream_cap
                        is None && final(self).init_snap_cap is None)
                    // The registry after the activation is exactly the
                    // admitted partitions (tracked before, recovered from
                    // loads, or cold-initialized primaries) minus those whose
                    // input ended; the ended ones were themselves admitted.
                    &&& forall|x: u64|
                        #[trigger] parts_has_key(final(self).parts@, x) <==> (activation_admits(
                            old(self).parts@,
                            loads_in@,
                            frontier_is_eof(loads_frontier@),
                            old(self).init_downstream_cap is Some,
                            old(self).primary_parts@,
                            old(self).primaries_inbuf@ + primaries_in@,
                            primaries_frontier@,
                            old(self).this_worker,
                            x,
                        ) && !has_key(acts.eofd_parts@, x))
                    &&& forall|x: u64|
                        #[trigger] has_key(acts.eofd_parts@, x) ==> activation_admits(
                            old(self).parts@,
                            loads_in@,
                            frontier_is_eof(loads_frontier@),
                            old(self).init_downstream_cap is Some,
                            old(self).primary_parts@,
                            old(self).primaries_inbuf@ + primaries_in@,
                            primaries_frontier@,
                            old(self).this_worker,
                            x,
                        )
                    // The scheduling rule.
                    &&& (!frontier_is_eof(loads_frontier@) ==> acts.schedule
                        == ScheduleAction::Idle)
                    &&& (frontier_is_eof(loads_frontier@) && final(self).parts@.len() == 0
                        ==> acts.schedule == ScheduleAction::Idle)
                    &&& (frontier_is_eof(loads_frontier@) && final(self).parts@.len() > 0 ==> (
                    acts.schedule matches ScheduleAction::After(d) && d >= 0 && (exists|i: int|
                        0 <= i < final(self).parts@.len() && awake_target(
                            (#[trigger] final(self).parts@[i]).1,
                            now as int,
                        ) <= now + d) && (d > 0 ==> forall|i: int|
                        0 <= i < final(self).parts@.len() ==> awake_target(
                            (#[trigger] final(self).parts@[i]).1,
                            now as int,
                        ) >= now + d)))
                },
                Err(e) => e.step_id == old(self).step_id,
            },
            // A calm activation — one that cannot reach user code — always
            // succeeds, emits nothing, and leaves the registry as it was.
            activation_calm(
                old(self).parts@,
                loads_in@,
                frontier_is_eof(loads_frontier@),
                old(self).init_downstream_cap is Some,
                probe_frontier@,
                now as int,
            ) ==> (r matches Ok(acts) && acts.items@.len() == 0 && acts.snaps@.len() == 0
                && !acts.abort && acts.eofd_parts@.len() == 0
                && final(self).parts@ == old(self).parts@),
    {
        let ghost calm = activation_calm(
            old(self).parts@,
            loads_in@,
            frontier_is_eof(loads_frontier@),
            old(self).init_downstream_cap is Some,
            probe_frontier@,
            now as int,
        );
        // Buffer freshly arrived primary assignments.
        let n_p = primaries_in.len();
        let mut b: usize = 0;
        while b < n_p
            invariant
                self.wf(),
                self.step_id == old(self).step_id,
                self.this_worker == old(self).this_worker,
                self.epoch_interval == old(self).epoch_interval,
                self.start_at == old(self).start_at,
                self.init_downstream_cap == old(self).init_downstream_cap,
                self.init_snap_cap == old(self).init_snap_cap,
                self.parts == old(self).parts,
                self.primary_parts == old(self).primary_parts,
                self.source == old(self).source,
                n_p == primaries_in@.len(),
                0 <= b <= n_p,
                self.primaries_inbuf@ == old(self).primaries_inbuf@ + primaries_in@.take(b as int),
            decreases n_p - b,
        {
            let e = primaries_in[b];
            self.primaries_inbuf.push(e);
            proof {
                assert(primaries_in@.take(b as int).push(primaries_in@[b as int])
                    =~= primaries_in@.take(b as int + 1));
                assert(self.primaries_inbuf@ =~= old(self).primaries_inbuf@ + primaries_in@.take(
                    b as int + 1,
                ));
            }
            b = b + 1;
        }
        proof {
            assert(primaries_in@.take(n_p as int) =~= primaries_in@);
        }

        // Build partitions from recovered state.
        let mut loads_buf = loads_in;
        match self.handle_loads(now, &mut loads_buf) {
            Ok(()) => {},
            Err(e) => {
                return Err(e);
            },
        }
        let ghost parts_after_loads = self.parts@;

        // Bookkeeping: closed primary assignments become ours to host.
        self.apply_closed_primaries(primaries_frontier);
        let ghost pp_after_apply = self.primary_parts@;

        // Cold-start the rest once no more recovered state can arrive.
        let loads_eof = frontier_eof(loads_frontier);
        if loads_eof {
            match self.cold_init(now) {
                Ok(()) => {},
                Err(e) => {
                    return Err(e);
                },
            }
        }
        let ghost entry_poll = self.parts@;
        proof {
            // Everything tracked at this point is admitted — it was tracked
            // before, recovered from loads, or cold-initialized as a primary
            // — and, conversely, everything admitted is tracked.
            assert forall|x: u64|
                #[trigger] parts_has_key(entry_poll, x) <==> activation_admits(
                    old(self).parts@,
                    loads_in@,
                    frontier_is_eof(loads_frontier@),
                    old(self).init_downstream_cap is Some,
                    old(self).primary_parts@,
                    old(self).primaries_inbuf@ + primaries_in@,
                    primaries_frontier@,
                    old(self).this_worker,
                    x,
                ) by {
                if parts_has_key(entry_poll, x) {
                    if parts_has_key(parts_after_loads, x) {
                        assert(parts_has_key(old(self).parts@, x) || loads_upserts(loads_in@, x));
                    } else {
                        assert(loads_eof && old(self).init_downstream_cap is Some);
                        assert(has_key(pp_after_apply, x));
                        assert(has_key(old(self).primary_parts@, x) || closed_assignment(
                            old(self).primaries_inbuf@ + primaries_in@,
                            primaries_frontier@,
                            old(self).this_worker,
                            x,
                        ));
                    }
                }
                if activation_admits(
                    old(self).parts@,
                    loads_in@,
                    frontier_is_eof(loads_frontier@),
                    old(self).init_downstream_cap is Some,
                    old(self).primary_parts@,
                    old(self).primaries_inbuf@ + primaries_in@,
                    primaries_frontier@,
                    old(self).this_worker,
                    x,
                ) {
                    if parts_has_key(old(self).parts@, x) || loads_upserts(loads_in@, x) {
                        assert(parts_has_key(parts_after_loads, x));
                        assert(parts_has_key(entry_poll, x));
                    } else {
                        assert(loads_eof && old(self).init_downstream_cap is Some);
                        assert(has_key(pp_after_apply, x));
                        assert(parts_has_key(entry_poll, x));
                    }
                }
            }
            if calm {
                assert(entry_poll == old(self).parts@);
            }
        }

        // Poll each partition in key order.
        let mut out_items: Vec<ItemBatch<<Src::Part as StatefulPartition>::Item>> = Vec::new();
        let mut out_snaps: Vec<SnapEmit<<Src::Part as StatefulPartition>::Resume>> = Vec::new();
        let mut eofd: Vec<StateKey> = Vec::new();
        let mut abort_flag = false;
        let mut new_parts: Vec<(StateKey, PartitionedPartState<Src::Part>)> = Vec::new();
        proof {
            if calm {
                assert(new_parts@ + self.parts@ =~= old(self).parts@);
            }
        }
        while self.parts.len() > 0
            invariant
                self.wf(),
                self.step_id == old(self).step_id,
                self.this_worker == old(self).this_worker,
                self.epoch_interval == old(self).epoch_interval,
                self.start_at == old(self).start_at,
                0 <= now < i64::MAX,
                loads_eof == frontier_is_eof(loads_frontier@),
                loads_eof ==> self.init_downstream_cap is None && self.init_snap_cap is None,
                calm == activation_calm(
                    old(self).parts@,
                    loads_in@,
                    frontier_is_eof(loads_frontier@),
                    old(self).init_downstream_cap is Some,
                    probe_frontier@,
                    now as int,
                ),
                forall|x: u64|
                    #[trigger] parts_has_key(entry_poll, x) <==> activation_admits(
                        old(self).parts@,
                        loads_in@,
                        frontier_is_eof(loads_frontier@),
                        old(self).init_downstream_cap is Some,
                        old(self).primary_parts@,
                        old(self).primaries_inbuf@ + primaries_in@,
                        primaries_frontier@,
                        old(self).this_worker,
                        x,
                    ),
                forall|x: u64|
                    #![trigger parts_has_key(new_parts@, x)]
                    #![trigger parts_has_key(self.parts@, x)]
                    #![trigger has_key(eofd@, x)]
                    (parts_has_key(new_parts@, x) || parts_has_key(self.parts@, x)) <==> (
                    parts_has_key(entry_poll, x) && !has_key(eofd@, x)),
                forall|x: u64| #[trigger] has_key(eofd@, x) ==> parts_has_key(entry_poll, x),
                parts_wf(new_parts@, self.start_at.0),
                forall|a: int, c: int|
                    0 <= a < new_parts@.len() && 0 <= c < self.parts@.len()
                        ==> (#[trigger] new_parts@[a]).0.0 < (#[trigger] self.parts@[c]).0.0,
                forall|i: int|
                    0 <= i < out_items@.len() ==> !frontier_less_than(
                        probe_frontier@,
                        (#[trigger] out_items@[i]).epoch,
                    ) && out_items@[i].epoch >= self.start_at.0,
                forall|i: int|
                    0 <= i < out_snaps@.len() ==> !frontier_less_than(
                        probe_frontier@,
                        (#[trigger] out_snaps@[i]).epoch,
                    ) && out_snaps@[i].epoch >= self.start_at.0 && out_snaps@[i].snap.step_id
                        == old(self).step_id && out_snaps@[i].snap.change is Upsert,
                calm ==> new_parts@ + self.parts@ == old(self).parts@,
                calm ==> out_items@.len() == 0 && out_snaps@.len() == 0 && !abort_flag
                    && eofd@.len() == 0,
            decreases self.parts@.len(),
        {
            let ghost pre_parts = self.parts@;
            let ghost pre_new = new_parts@;
            let ghost pre_eofd = eofd@;
            let (key, mut st) = self.parts.remove(0);
            let ghost pre_st = st;
            proof {
                assert(forall|c: int|
                    0 <= c < self.parts@.len() ==> (#[trigger] self.parts@[c]) == pre_parts[c
                        + 1]);
                assert(forall|c: int|
                    0 <= c < self.parts@.len() ==> key.0 < (#[trigger] self.parts@[c]).0.0);
                assert(pre_parts[0].0.0 == key.0);
                assert(parts_has_key(pre_parts, key.0));
                assert(parts_has_key(entry_poll, key.0));
                assert(!has_key(pre_eofd, key.0));
                assert forall|x: u64| #[trigger] parts_has_key(self.parts@, x) implies parts_has_key(
                    pre_parts,
                    x,
                ) by {
                    let w = choose|w: int|
                        0 <= w < self.parts@.len() && (#[trigger] self.parts@[w]).0.0 == x;
                    assert(pre_parts[w + 1].0.0 == x);
                }
                assert forall|x: u64|
                    parts_has_key(pre_parts, x) && x != key.0 implies parts_has_key(
                    self.parts@,
                    x,
                ) by {
                    let w = choose|w: int|
                        0 <= w < pre_parts.len() && (#[trigger] pre_parts[w]).0.0 == x;
                    assert(w != 0);
                    assert(self.parts@[w - 1].0.0 == x);
                }
                if calm {
                    assert(pre_new + pre_parts == old(self).parts@);
                    assert(old(self).parts@[pre_new.len() as int] == pre_parts[0]);
                    assert(part_gated(pre_st, probe_frontier@, now as int));
                }
            }
            let epoch = st.downstream_cap;
            let probe_blocked = probe_less_than(probe_frontier, epoch);
            match poll_partition(
                &mut st,
                &self.step_id,
                key,
                now,
                self.epoch_interval,
                probe_blocked,
                Ghost(self.start_at.0),
            ) {
                Err(e) => {
                    proof {
                        // A calm activation never reaches a user call, so it
                        // cannot fail.
                        if calm {
                            assert(false);
                        }
                    }
                    // Fatal: reassemble the registry so every partition stays
                    // owned and can be torn down.
                    new_parts.push((key, st));
                    while self.parts.len() > 0
                        invariant
                            self.wf(),
                            self.step_id == old(self).step_id,
                            self.this_worker == old(self).this_worker,
                            self.epoch_interval == old(self).epoch_interval,
                            self.start_at == old(self).start_at,
                            parts_wf(new_parts@, self.start_at.0),
                            forall|a: int, c: int|
                                0 <= a < new_parts@.len() && 0 <= c < self.parts@.len()
                                    ==> (#[trigger] new_parts@[a]).0.0 < (
                                #[trigger] self.parts@[c]).0.0,
                        decreases self.parts@.len(),
                    {
                        let ghost rest = self.parts@;
                        let head = self.parts.remove(0);
                        proof {
                            assert(forall|c: int|
                                0 <= c < self.parts@.len() ==> (#[trigger] self.parts@[c]) == rest[
                                c + 1]);
                        }
                        new_parts.push(head);
                    }
                    self.parts = new_parts;
                    return Err(e);
                },
                Ok(out) => {
                    let PollOutcome { emitted, snap, eof, abort: got_abort } = out;
                    match emitted {
                        Some(items) => {
                            out_items.push(ItemBatch { epoch, items });
                        },
                        None => {},
                    }
                    match snap {
                        Some(state) => {
                            out_snaps.push(
                                SnapEmit {
                                    epoch,
                                    snap: Snapshot {
                                        step_id: self.step_id.clone(),
                                        key,
                                        change: StateChange::Upsert(state),
                                    },
                                },
                            );
                        },
                        None => {},
                    }
                    if got_abort {
                        abort_flag = true;
                    }
                    if eof {
                        proof {
                            // A gated partition reports no outcome, so a calm
                            // activation never reaches this branch.
                            if calm {
                                assert(false);
                            }
                        }
                        // The partition's input ended: its final snapshot is
                        // already out, so tear it down.
                        st.part.close();
                        eofd.push(key);
                        proof {
                            assert(eofd@ == pre_eofd.push(key));
                            assert(forall|m: int| 0 <= m < pre_eofd.len() ==> eofd@[m] == pre_eofd[m]);
                            assert(eofd@[pre_eofd.len() as int] == key);
                            assert forall|x: u64| #[trigger] has_key(eofd@, x) implies (has_key(
                                pre_eofd,
                                x,
                            ) || x == key.0) by {
                                let w = choose|w: int|
                                    0 <= w < eofd@.len() && (#[trigger] eofd@[w]).0 == x;
                                if w < pre_eofd.len() {
                                    assert(pre_eofd[w].0 == x);
                                }
                            }
                            assert forall|x: u64| has_key(pre_eofd, x) implies has_key(
                                eofd@,
                                x,
                            ) by {
                                let w = choose|w: int|
                                    0 <= w < pre_eofd.len() && (#[trigger] pre_eofd[w]).0 == x;
                                assert(eofd@[w].0 == x);
                            }
                            assert(has_key(eofd@, key.0));
                            assert forall|x: u64|
                                (parts_has_key(new_parts@, x) || parts_has_key(
                                    self.parts@,
                                    x,
                                )) <==> (parts_has_key(entry_poll, x) && !has_key(eofd@, x)) by {
                                if x == key.0 {
                                    if parts_has_key(new_parts@, x) {
                                        let w = choose|w: int|
                                            0 <= w < new_parts@.len()
                                                && (#[trigger] new_parts@[w]).0.0 == x;
                                        assert(new_parts@[w].0.0 < pre_parts[0].0.0);
                                        assert(false);
                                    }
                                    if parts_has_key(self.parts@, x) {
                                        let w = choose|w: int|
                                            0 <= w < self.parts@.len()
                                                && (#[trigger] self.parts@[w]).0.0 == x;
                                        assert(false);
                                    }
                                } else {
                                    assert(parts_has_key(pre_parts, x) == parts_has_key(
                                        self.parts@,
                                        x,
                                    ));
                                    assert(has_key(eofd@, x) == has_key(pre_eofd, x));
                                }
                            }
                        }
                    } else {
                        let ghost prevn = new_parts@;
                        new_parts.push((key, st));
                        proof {
                            assert forall|x: u64| #[trigger] parts_has_key(
                                new_parts@,
                                x,
                            ) implies (parts_has_key(prevn, x) || x == key.0) by {
                                let w = choose|w: int|
                                    0 <= w < new_parts@.len() && (#[trigger] new_parts@[w]).0.0
                                        == x;
                                if w < prevn.len() {
                                    assert(prevn[w].0.0 == x);
                                }
                            }
                            assert forall|x: u64| parts_has_key(prevn, x) implies parts_has_key(
                                new_parts@,
                                x,
                            ) by {
                                let w = choose|w: int|
                                    0 <= w < prevn.len() && (#[trigger] prevn[w]).0.0 == x;
                                assert(new_parts@[w].0.0 == x);
                            }
                            assert(new_parts@[prevn.len() as int] == (key, st));
                            assert(parts_has_key(new_parts@, key.0));
                            assert forall|x: u64|
                                (parts_has_key(new_parts@, x) || parts_has_key(
                                    self.parts@,
                                    x,
                                )) <==> (parts_has_key(entry_poll, x) && !has_key(eofd@, x)) by {
                                if x != key.0 {
                                    assert(parts_has_key(pre_parts, x) == parts_has_key(
                                        self.parts@,
                                        x,
                                    ));
                                }
                            }
                            if calm {
                                // The partition was frozen, so reassembling
                                // the registry reproduces it exactly.
                                assert(st == pre_st);
                                assert(new_parts@ + self.parts@ =~= old(self).parts@);
                            }
                        }
                    }
                },
            }
        }
        proof {
            if calm {
                assert(new_parts@ =~= new_parts@ + self.parts@);
            }
        }
        self.parts = new_parts;
        proof {
            assert forall|x: u64|
                #[trigger] parts_has_key(self.parts@, x) <==> (activation_admits(
                    old(self).parts@,
                    loads_in@,
                    frontier_is_eof(loads_frontier@),
                    old(self).init_downstream_cap is Some,
                    old(self).primary_parts@,
                    old(self).primaries_inbuf@ + primaries_in@,
                    primaries_frontier@,
                    old(self).this_worker,
                    x,
                ) && !has_key(eofd@, x)) by {
                assert(parts_has_key(entry_poll, x) <==> activation_admits(
                    old(self).parts@,
                    loads_in@,
                    frontier_is_eof(loads_frontier@),
                    old(self).init_downstream_cap is Some,
                    old(self).primary_parts@,
                    old(self).primaries_inbuf@ + primaries_in@,
                    primaries_frontier@,
                    old(self).this_worker,
                    x,
                ));
            }
            assert forall|x: u64| #[trigger] has_key(eofd@, x) implies activation_admits(
                old(self).parts@,
                loads_in@,
                frontier_is_eof(loads_frontier@),
                old(self).init_downstream_cap is Some,
                old(self).primary_parts@,
                old(self).primaries_inbuf@ + primaries_in@,
                primaries_frontier@,
                old(self).this_worker,
                x,
            ) by {
                assert(parts_has_key(entry_poll, x));
            }
        }

        // Decide when to run again.
        let schedule = if !loads_eof {
            // Still loading: wait for more loads input.
            ScheduleAction::Idle
        } else if self.parts.len() > 0 {
            let len = self.parts.len();
            let mut min_target: i64 = match self.parts[0].1.next_awake {
                None => now,
                Some(na) => na,
            };
            proof {
                assert(min_target == awake_target(self.parts@[0].1, now as int));
            }
            let mut i: usize = 1;
            while i < len
                invariant
                    len == self.parts@.len(),
                    1 <= i <= len,
                    exists|m: int|
                        0 <= m < i && awake_target((#[trigger] self.parts@[m]).1, now as int)
                            == min_target,
                    forall|m: int|
                        0 <= m < i ==> awake_target((#[trigger] self.parts@[m]).1, now as int)
                            >= min_target,
                decreases len - i,
            {
                let t = match self.parts[i].1.next_awake {
                    None => now,
                    Some(na) => na,
                };
                proof {
                    assert(t == awake_target(self.parts@[i as int].1, now as int));
                }
                if t < min_target {
                    min_target = t;
                }
                i = i + 1;
            }
            // Late already: run again immediately.
            let delay = if min_target <= now {
                0
            } else {
                min_target - now
            };
            ScheduleAction::After(delay)
        } else {
            // Quiescent: nothing left to poll.
            ScheduleAction::Idle
        };

        Ok(
            ActivationActions {
                items: out_items,
                snaps: out_snaps,
                eofd_parts: eofd,
                abort: abort_flag,
                schedule,
            },
        )
    }
}

} // verus!
