//! Tasks as the scheduler sees them.

use crate::common::{Priority, TaskId, WorkerId};
use vstd::prelude::*;

verus! {

/// Where a task stands on its way through the scheduler.
#[derive(Clone, Copy, Debug, PartialEq, Eq, Structural)]
pub enum TaskState {
    /// Waiting for this many dependencies that are not finished.
    Waiting(usize),
    /// Sent to a worker.
    Assigned(WorkerId),
    /// Known to run on a worker.
    Running(WorkerId),
    /// Done; the result is on the workers listed as locations.
    Finished,
    /// Done and given up by the client; the result is kept nowhere.
    Released,
    /// Failed, or waiting for the result of a task that has failed; it will
    /// not run.
    Erred,
}

/// A task of the graph, with the result that it makes.
#[derive(Debug, PartialEq, Eq)]
pub struct Task {
    pub id: TaskId,
    pub state: TaskState,
    /// The priority of the client, then the one the scheduler gave.
    pub priority: Priority,
    /// The tasks whose results it reads.
    pub deps: Vec<TaskId>,
    /// The tasks that read its result.
    pub consumers: Vec<TaskId>,
    /// The size of the result: expected while the task is not finished,
    /// measured afterwards.
    pub size: Option<u64>,
    /// The workers that hold the result of a finished task.
    pub locations: Vec<WorkerId>,
    /// The client has released the task.
    pub released: bool,
    /// The worker to which the task goes if the steal in flight succeeds.
    pub steal_target: Option<WorkerId>,
}

/// What a task stands for.
pub struct TaskView {
    pub id: TaskId,
    pub state: TaskState,
    pub priority: Priority,
    pub deps: Seq<TaskId>,
    pub consumers: Seq<TaskId>,
    pub size: Option<u64>,
    pub locations: Seq<WorkerId>,
    pub released: bool,
    pub steal_target: Option<WorkerId>,
}

impl View for Task {
    type V = TaskView;

    open spec fn view(&self) -> TaskView {
        TaskView {
            id: self.id,
            state: self.state,
            priority: self.priority,
            deps: self.deps@,
            consumers: self.consumers@,
            size: self.size,
            locations: self.locations@,
            released: self.released,
            steal_target: self.steal_target,
        }
    }
}

impl TaskView {
    /// The task is sent to a worker or runs on one.
    pub open spec fn on_worker(self) -> Option<WorkerId> {
        match self.state {
            TaskState::Assigned(worker) => Some(worker),
            TaskState::Running(worker) => Some(worker),
            _ => None,
        }
    }

    /// The task has still to be done.
    pub open spec fn unfinished(self) -> bool {
        self.state is Waiting || self.state is Assigned || self.state is Running
    }
}

impl Task {
    /// The worker that the task is assigned to or runs on.
    pub fn on_worker(&self) -> (worker: Option<WorkerId>)
        ensures
            worker == self@.on_worker(),
    {
        match self.state {
            TaskState::Assigned(worker) => Some(worker),
            TaskState::Running(worker) => Some(worker),
            _ => None,
        }
    }

    /// Tells whether the task has still to be done.
    pub fn unfinished(&self) -> (unfinished: bool)
        ensures
            unfinished == self@.unfinished(),
    {
        match self.state {
            TaskState::Waiting(_) => true,
            TaskState::Assigned(_) => true,
            TaskState::Running(_) => true,
            _ => false,
        }
    }

    /// Tells whether the task is done and its result is kept.
    pub fn is_finished(&self) -> (finished: bool)
        ensures
            finished == (self.state is Finished),
    {
        match self.state {
            TaskState::Finished => true,
            _ => false,
        }
    }
}

} // verus!
