//! Input operator state machines driven by scripted sources: cold
//! initialization, resume from loads, backpressure, snapshot cadence,
//! end-of-input teardown, abort, error context, and primary assignment.

use inflow::clock::EpochInterval;
use inflow::errors::CallKind;
use inflow::errors::UserError;
use inflow::keys::ResumeEpoch;
use inflow::keys::StateKey;
use inflow::keys::WorkerCount;
use inflow::keys::WorkerIndex;
use inflow::operator::BatchResult;
use inflow::operator::PartitionedInputOp;
use inflow::operator::FixedPartitionedSource;
use inflow::operator::ScheduleAction;
use inflow::operator::StateChange;
use inflow::operator::StatefulPartition;
use inflow::registry::assign_primaries;
use inflow::registry::hash_key;

/// A partition that replays a fixed script of batch results, then empty
/// batches forever.
struct ScriptedPart {
    script: Vec<BatchResult<u64>>,
    awake: Option<i64>,
    snap_value: u64,
}

impl StatefulPartition for ScriptedPart {
    type Item = u64;
    type Resume = u64;

    fn next_batch(
        &mut self,
        _now_millis: i64,
        _sched_millis: Option<i64>,
    ) -> Result<BatchResult<u64>, UserError> {
        if self.script.is_empty() {
            Ok(BatchResult::Batch(Vec::new()))
        } else {
            Ok(self.script.remove(0))
        }
    }

    fn next_awake(&self) -> Result<Option<i64>, UserError> {
        Ok(self.awake)
    }

    fn snapshot(&self) -> Result<u64, UserError> {
        Ok(self.snap_value)
    }

    fn close(&mut self) {}
}

/// Builds partitions that emit one two-item batch, then empty batches; the
/// snapshot value encodes the key and any resume state.
struct BatchSource;

impl FixedPartitionedSource for BatchSource {
    type Part = ScriptedPart;

    fn list_parts(&self) -> Result<Vec<StateKey>, UserError> {
        Ok(vec![StateKey(7)])
    }

    fn build_part(
        &mut self,
        _now_millis: i64,
        for_part: StateKey,
        resume_state: Option<u64>,
    ) -> Result<ScriptedPart, UserError> {
        Ok(ScriptedPart {
            script: vec![BatchResult::Batch(vec![
                for_part.0 * 100,
                for_part.0 * 100 + 1,
            ])],
            awake: None,
            snap_value: for_part.0 + resume_state.unwrap_or(0),
        })
    }
}

/// Builds partitions whose very first poll reports end of input.
struct EofSource;

impl FixedPartitionedSource for EofSource {
    type Part = ScriptedPart;

    fn list_parts(&self) -> Result<Vec<StateKey>, UserError> {
        Ok(vec![StateKey(7)])
    }

    fn build_part(
        &mut self,
        _now_millis: i64,
        for_part: StateKey,
        _resume_state: Option<u64>,
    ) -> Result<ScriptedPart, UserError> {
        Ok(ScriptedPart {
            script: vec![BatchResult::Eof],
            awake: None,
            snap_value: for_part.0,
        })
    }
}

/// Builds partitions whose very first poll requests an abort.
struct AbortSource;

impl FixedPartitionedSource for AbortSource {
    type Part = ScriptedPart;

    fn list_parts(&self) -> Result<Vec<StateKey>, UserError> {
        Ok(vec![StateKey(7)])
    }

    fn build_part(
        &mut self,
        _now_millis: i64,
        for_part: StateKey,
        _resume_state: Option<u64>,
    ) -> Result<ScriptedPart, UserError> {
        Ok(ScriptedPart {
            script: vec![BatchResult::Abort],
            awake: None,
            snap_value: for_part.0,
        })
    }
}

/// A source whose builds always fail.
struct FailingSource;

impl FixedPartitionedSource for FailingSource {
    type Part = ScriptedPart;

    fn list_parts(&self) -> Result<Vec<StateKey>, UserError> {
        Ok(vec![StateKey(7)])
    }

    fn build_part(
        &mut self,
        _now_millis: i64,
        _for_part: StateKey,
        _resume_state: Option<u64>,
    ) -> Result<ScriptedPart, UserError> {
        Err(UserError {
            message: "no such partition".to_string(),
        })
    }
}

fn op_with<Src: FixedPartitionedSource>(
    source: Src,
    start_at: u64,
) -> PartitionedInputOp<Src> {
    PartitionedInputOp::new(
        "in".to_string(),
        WorkerIndex(0),
        EpochInterval::new(10_000).unwrap(),
        ResumeEpoch(start_at),
        source,
    )
}

/// One closed assignment of key 7 to worker 0, ready to apply.
fn assignment_of_key7() -> Vec<(u64, StateKey, WorkerIndex)> {
    vec![(0, StateKey(7), WorkerIndex(0))]
}

#[test]
fn cold_init_builds_and_emits_at_resume_epoch() {
    let mut op = op_with(BatchSource, 3);
    let acts = op
        .activate(
            1000,
            assignment_of_key7(),
            Vec::new(),
            &vec![],  // loads ended: cold-init now
            &vec![5], // epoch 0 of the assignments is closed
            &vec![],  // downstream fully caught up
        )
        .unwrap();
    assert_eq!(acts.items.len(), 1);
    assert_eq!(acts.items[0].epoch, 3);
    assert_eq!(acts.items[0].items, vec![700, 701]);
    assert!(acts.snaps.is_empty());
    assert!(acts.eofd_parts.is_empty());
    assert!(!acts.abort);
    assert_eq!(acts.schedule, ScheduleAction::After(0));
    assert_eq!(op.init_downstream_cap, None);
    assert_eq!(op.init_snap_cap, None);
}

#[test]
fn backpressure_blocks_all_emission() {
    let mut op = op_with(BatchSource, 3);
    // The probe reports epoch 2 still in flight, below the partition's
    // epoch 3: nothing may be emitted.
    let acts = op
        .activate(
            1000,
            assignment_of_key7(),
            Vec::new(),
            &vec![],
            &vec![5],
            &vec![2],
        )
        .unwrap();
    assert!(acts.items.is_empty());
    assert!(acts.snaps.is_empty());
    assert!(acts.eofd_parts.is_empty());
    assert!(!acts.abort);
    // Once the probe clears, the batch comes out.
    let acts = op
        .activate(1001, Vec::new(), Vec::new(), &vec![], &vec![5], &vec![3])
        .unwrap();
    assert_eq!(acts.items.len(), 1);
    assert_eq!(acts.items[0].epoch, 3);
    assert_eq!(acts.items[0].items, vec![700, 701]);
}

#[test]
fn interval_elapse_takes_snapshot_and_advances() {
    let mut op = op_with(BatchSource, 3);
    let first = op
        .activate(
            1000,
            assignment_of_key7(),
            Vec::new(),
            &vec![],
            &vec![5],
            &vec![],
        )
        .unwrap();
    assert!(first.snaps.is_empty());
    // Ten seconds later the epoch interval has elapsed: the partition is
    // snapshotted at its current epoch and advanced past it.
    let later = op
        .activate(20_000, Vec::new(), Vec::new(), &vec![], &vec![5], &vec![])
        .unwrap();
    assert_eq!(later.snaps.len(), 1);
    assert_eq!(later.snaps[0].epoch, 3);
    assert_eq!(later.snaps[0].snap.step_id, "in".to_string());
    assert_eq!(later.snaps[0].snap.key, StateKey(7));
    assert!(matches!(later.snaps[0].snap.change, StateChange::Upsert(7)));
    // The empty batch waits for a cooldown before the next poll.
    assert_eq!(later.schedule, ScheduleAction::After(1));
}

#[test]
fn loads_resume_fast_forwards_to_resume_epoch() {
    let mut op = op_with(BatchSource, 5);
    // A snapshot recovered from epoch 2 resumes at the resume epoch 5.
    let loads = vec![(2, WorkerIndex(0), StateKey(9), StateChange::Upsert(42))];
    let acts = op
        .activate(1000, Vec::new(), loads, &vec![3], &vec![5], &vec![])
        .unwrap();
    assert_eq!(acts.items.len(), 1);
    assert_eq!(acts.items[0].epoch, 5);
    assert_eq!(acts.items[0].items, vec![900, 901]);
    // Loads not yet ended: the init capabilities are retained and the
    // operator waits for more loads input instead of self-scheduling.
    assert_eq!(op.init_downstream_cap, Some(5));
    assert_eq!(acts.schedule, ScheduleAction::Idle);
    // A later snapshot carries the resumed state.
    let later = op
        .activate(20_000, Vec::new(), Vec::new(), &vec![], &vec![5], &vec![])
        .unwrap();
    assert_eq!(later.snaps.len(), 1);
    assert_eq!(later.snaps[0].epoch, 5);
    assert!(matches!(
        later.snaps[0].snap.change,
        StateChange::Upsert(51)
    ));
    assert_eq!(op.init_downstream_cap, None);
}

#[test]
fn eof_takes_final_snapshot_and_removes_partition() {
    let mut op = op_with(EofSource, 0);
    let acts = op
        .activate(
            1000,
            assignment_of_key7(),
            Vec::new(),
            &vec![],
            &vec![5],
            &vec![],
        )
        .unwrap();
    assert!(acts.items.is_empty());
    assert_eq!(acts.snaps.len(), 1);
    assert_eq!(acts.snaps[0].epoch, 0);
    assert!(matches!(acts.snaps[0].snap.change, StateChange::Upsert(7)));
    // The partition is gone and reported as ended; nothing is left to poll.
    assert_eq!(acts.eofd_parts, vec![StateKey(7)]);
    assert_eq!(op.parts.len(), 0);
    assert_eq!(acts.schedule, ScheduleAction::Idle);
}

#[test]
fn abort_sets_flag_and_keeps_partition() {
    let mut op = op_with(AbortSource, 0);
    let acts = op
        .activate(
            1000,
            assignment_of_key7(),
            Vec::new(),
            &vec![],
            &vec![5],
            &vec![],
        )
        .unwrap();
    assert!(acts.abort);
    assert!(acts.items.is_empty());
    assert_eq!(op.parts.len(), 1);
}

#[test]
fn build_failure_carries_step_and_partition_context() {
    let mut op = op_with(FailingSource, 0);
    let err = match op.activate(
        1000,
        assignment_of_key7(),
        Vec::new(),
        &vec![],
        &vec![5],
        &vec![],
    ) {
        Ok(_) => panic!("the build failure must surface"),
        Err(e) => e,
    };
    assert_eq!(err.step_id, "in".to_string());
    assert_eq!(err.key, Some(StateKey(7)));
    assert_eq!(err.during, CallKind::BuildPart);
    assert_eq!(err.cause.message, "no such partition".to_string());
}

/// Builds partitions whose polls always fail.
struct PollFailSource;

struct FailingPart;

impl StatefulPartition for FailingPart {
    type Item = u64;
    type Resume = u64;

    fn next_batch(
        &mut self,
        _now_millis: i64,
        _sched_millis: Option<i64>,
    ) -> Result<BatchResult<u64>, UserError> {
        Err(UserError {
            message: "socket closed".to_string(),
        })
    }

    fn next_awake(&self) -> Result<Option<i64>, UserError> {
        Ok(None)
    }

    fn snapshot(&self) -> Result<u64, UserError> {
        Ok(0)
    }

    fn close(&mut self) {}
}

impl FixedPartitionedSource for PollFailSource {
    type Part = FailingPart;

    fn list_parts(&self) -> Result<Vec<StateKey>, UserError> {
        Ok(vec![StateKey(7)])
    }

    fn build_part(
        &mut self,
        _now_millis: i64,
        _for_part: StateKey,
        _resume_state: Option<u64>,
    ) -> Result<FailingPart, UserError> {
        Ok(FailingPart)
    }
}

#[test]
fn poll_failure_carries_next_batch_context() {
    let mut op = op_with(PollFailSource, 0);
    let err = match op.activate(
        1000,
        assignment_of_key7(),
        Vec::new(),
        &vec![],
        &vec![5],
        &vec![],
    ) {
        Ok(_) => panic!("the poll failure must surface"),
        Err(e) => e,
    };
    assert_eq!(err.step_id, "in".to_string());
    assert_eq!(err.key, Some(StateKey(7)));
    assert_eq!(err.during, CallKind::NextBatch);
    assert_eq!(err.cause.message, "socket closed".to_string());
}

#[test]
fn assign_primaries_picks_hash_target_when_it_reported() {
    let reports = vec![
        (StateKey(10), WorkerIndex(0)),
        (StateKey(10), WorkerIndex(1)),
        (StateKey(20), WorkerIndex(1)),
    ];
    let out = assign_primaries(&reports, WorkerCount(2));
    let target10 = hash_key(StateKey(10)) % 2;
    assert_eq!(
        out,
        vec![
            (StateKey(10), WorkerIndex(target10)),
            (StateKey(20), WorkerIndex(1)),
        ]
    );
}

#[test]
fn assign_primaries_falls_back_to_smallest_reporter() {
    // Only worker 2 reported the key: whatever the hash target, worker 2
    // must host it.
    let reports = vec![(StateKey(99), WorkerIndex(2))];
    let out = assign_primaries(&reports, WorkerCount(16));
    assert_eq!(out, vec![(StateKey(99), WorkerIndex(2))]);
}

#[test]
fn assign_primaries_is_deterministic_and_sorted() {
    let reports = vec![
        (StateKey(5), WorkerIndex(3)),
        (StateKey(1), WorkerIndex(2)),
        (StateKey(5), WorkerIndex(0)),
        (StateKey(3), WorkerIndex(1)),
    ];
    let a = assign_primaries(&reports, WorkerCount(4));
    let b = assign_primaries(&reports, WorkerCount(4));
    assert_eq!(a, b);
    let keys: Vec<u64> = a.iter().map(|(k, _)| k.0).collect();
    assert_eq!(keys, vec![1, 3, 5]);
}

#[test]
fn assign_primaries_of_no_reports_is_empty() {
    let reports: Vec<(StateKey, WorkerIndex)> = Vec::new();
    assert_eq!(assign_primaries(&reports, WorkerCount(3)), vec![]);
}
