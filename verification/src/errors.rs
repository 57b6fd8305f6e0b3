//! Error kinds shared across the crate.

use vstd::prelude::*;

use crate::keys::StateKey;

verus! {

/// Rejected configuration, fatal at construction: a duration that must be
/// positive is not, or an instant or duration lies outside the supported
/// time range.
#[derive(Clone, Copy, Debug, PartialEq, Eq, Structural)]
pub enum ConfigError {
    NonPositiveDuration,
    TimeOutOfRange,
}

/// A failure surfaced by user-supplied source code, carrying the user's own
/// description of it.
#[derive(Debug)]
pub struct UserError {
    pub message: String,
}

/// Which user call failed.
#[derive(Clone, Copy, Debug, PartialEq, Eq, Structural)]
pub enum CallKind {
    ListParts,
    BuildPart,
    NextBatch,
    NextAwake,
    TakeSnapshot,
    Build,
}

/// A user failure wrapped with the context the operator knows: the step it
/// happened in, the partition if any, and the call that failed. Fatal to the
/// worker.
#[derive(Debug)]
pub struct StepError {
    pub step_id: String,
    pub key: Option<StateKey>,
    pub during: CallKind,
    pub cause: UserError,
}

} // verus!
