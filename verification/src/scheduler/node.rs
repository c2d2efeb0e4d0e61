//! Workers as the scheduler sees them.

use crate::common::{TaskId, WorkerId};
use vstd::prelude::*;

verus! {

/// A connected worker.
#[derive(Debug, PartialEq, Eq)]
pub struct Worker {
    pub id: WorkerId,
    /// Where other workers reach this one.
    pub listen_address: String,
    pub ncpus: u32,
    /// The tasks sent to the worker and not reported as finished.
    pub tasks: Vec<TaskId>,
    /// The results that the worker holds.
    pub data: Vec<TaskId>,
}

/// What a worker stands for.
pub struct WorkerView {
    pub id: WorkerId,
    pub listen_address: Seq<char>,
    pub ncpus: u32,
    pub tasks: Seq<TaskId>,
    pub data: Seq<TaskId>,
}

impl View for Worker {
    type V = WorkerView;

    open spec fn view(&self) -> WorkerView {
        WorkerView {
            id: self.id,
            listen_address: self.listen_address@,
            ncpus: self.ncpus,
            tasks: self.tasks@,
            data: self.data@,
        }
    }
}

impl WorkerView {
    /// The number of tasks sent to the worker and not finished.
    pub open spec fn load(self) -> nat {
        self.tasks.len()
    }

    /// The worker has a core to spare.
    pub open spec fn has_capacity(self) -> bool {
        self.load() < self.ncpus
    }
}

impl Worker {
    /// The number of tasks sent to the worker and not finished.
    pub fn load(&self) -> (load: usize)
        ensures
            load == self@.load(),
    {
        self.tasks.len()
    }

    /// Tells whether the worker has a core to spare.
    pub fn has_capacity(&self) -> (free: bool)
        ensures
            free == self@.has_capacity(),
    {
        (self.tasks.len() as u128) < (self.ncpus as u128)
    }
}

} // verus!
