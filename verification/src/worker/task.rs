//! Tasks as a worker sees them.

use crate::common::{Priority, SubworkerId, TaskId};
use crate::queue::QueueKey;
use vstd::prelude::*;

verus! {

/// Where a task stands on a worker.
#[derive(Clone, Copy, Debug, PartialEq, Eq, Structural)]
pub enum TaskState {
    /// Waiting for this many dependencies that are not local yet.
    Waiting(usize),
    Running(SubworkerId),
    Removed,
}

/// A task that was assigned to the worker.
#[derive(Debug, PartialEq, Eq)]
pub struct Task {
    pub id: TaskId,
    pub priority: Priority,
    /// Identifiers of the data objects that the task reads.
    pub deps: Vec<TaskId>,
    pub state: TaskState,
}

/// What a task stands for.
pub struct TaskView {
    pub id: TaskId,
    pub priority: Priority,
    pub deps: Seq<TaskId>,
    pub state: TaskState,
}

impl View for Task {
    type V = TaskView;

    open spec fn view(&self) -> TaskView {
        TaskView { id: self.id, priority: self.priority, deps: self.deps@, state: self.state }
    }
}

impl Clone for Task {
    fn clone(&self) -> (copy: Task)
        ensures
            copy@ == self@,
    {
        Task { id: self.id, priority: self.priority, deps: self.deps.clone(), state: self.state }
    }
}

impl TaskView {
    /// The key under which the task waits in the ready queue.
    pub open spec fn queue_key(self) -> QueueKey {
        (self.priority.0, self.priority.1, self.id)
    }

    /// The task waits for nothing.
    pub open spec fn is_ready(self) -> bool {
        self.state == TaskState::Waiting(0)
    }
}

impl Task {
    /// A task without dependencies, waiting for nothing.
    pub fn new(id: TaskId, priority: Priority) -> (task: Task)
        ensures
            task@ == (TaskView { id, priority, deps: Seq::empty(), state: TaskState::Waiting(0) }),
    {
        Task { id, priority, deps: Vec::new(), state: TaskState::Waiting(0) }
    }

    /// Tells whether the task waits for nothing.
    pub fn is_ready(&self) -> (ready: bool)
        ensures
            ready == self@.is_ready(),
    {
        match self.state {
            TaskState::Waiting(count) => count == 0,
            _ => false,
        }
    }

    /// Tells whether the task runs on a subworker.
    pub fn is_running(&self) -> (running: bool)
        ensures
            running == (self.state is Running),
    {
        match self.state {
            TaskState::Running(_) => true,
            _ => false,
        }
    }

    /// The number of dependencies the task still waits for; zero for a task
    /// that does not wait.
    pub fn get_waiting(&self) -> (count: usize)
        ensures
            count == match self.state {
                TaskState::Waiting(n) => n,
                _ => 0,
            },
    {
        match self.state {
            TaskState::Waiting(count) => count,
            _ => 0,
        }
    }

    /// The key under which the task waits in the ready queue.
    pub fn queue_key(&self) -> (key: QueueKey)
        ensures
            key == self@.queue_key(),
    {
        (self.priority.0, self.priority.1, self.id)
    }
}

} // verus!
