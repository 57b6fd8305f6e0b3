//! Identifiers shared by the input operators: partition keys, worker
//! coordinates, and the resume epoch.

use vstd::prelude::*;

verus! {

/// Opaque identifier of a partition; totally ordered and hashable. Callers
/// that name partitions by strings or paths map them to distinct numbers at
/// the boundary.
#[derive(Clone, Copy, Debug, PartialEq, Eq, Structural, Hash)]
pub struct StateKey(pub u64);

/// Position of a worker within a run: `0 <= index < count`, stable for the
/// lifetime of the run.
#[derive(Clone, Copy, Debug, PartialEq, Eq, Structural, Hash)]
pub struct WorkerIndex(pub u64);

/// Number of workers in a run; positive.
#[derive(Clone, Copy, Debug, PartialEq, Eq, Structural)]
pub struct WorkerCount(pub u64);

/// Epoch a restarted execution resumes from: inputs may not emit earlier.
#[derive(Clone, Copy, Debug, PartialEq, Eq, Structural)]
pub struct ResumeEpoch(pub u64);

} // verus!
