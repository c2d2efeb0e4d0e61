//! Execution slots of a worker.

use crate::common::{SubworkerId, TaskId};
use vstd::prelude::*;

verus! {

/// A subworker runs at most one task at a time.
#[derive(Clone, Copy, Debug, PartialEq, Eq, Structural)]
pub struct Subworker {
    pub id: SubworkerId,
    pub running_task: Option<TaskId>,
}

impl Subworker {
    /// A subworker that runs nothing.
    pub fn new(id: SubworkerId) -> (subworker: Subworker)
        ensures
            subworker == (Subworker { id, running_task: None }),
    {
        Subworker { id, running_task: None }
    }
}

} // verus!
