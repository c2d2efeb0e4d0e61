//! Identifiers and priorities shared by the scheduler and the workers.

use vstd::prelude::*;

verus! {

/// Identifies a task, and the data object that the task produces.
pub type TaskId = u64;

/// Identifies a worker of the cluster.
pub type WorkerId = u64;

/// Identifies an execution slot of a worker.
pub type SubworkerId = u64;

/// One part of a priority.
pub type PriorityValue = i32;

/// User priority, then internal priority. A smaller pair runs first.
pub type Priority = (PriorityValue, PriorityValue);

/// How the bytes of a data object are encoded.
#[derive(Clone, Copy, Debug, PartialEq, Eq, Structural)]
pub enum SerializationType {
    Raw,
    Pickle,
}

} // verus!
