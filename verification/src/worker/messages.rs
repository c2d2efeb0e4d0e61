//! Messages that a worker sends, and the effects that the reactor asks for.

use crate::common::{Priority, SubworkerId, TaskId};
use vstd::prelude::*;

verus! {

/// Answer of a worker to a steal request.
#[derive(Clone, Copy, Debug, PartialEq, Eq, Structural)]
pub enum StealResponse {
    /// The task was waiting here and has been given up.
    Success,
    /// The task is not on this worker.
    NotHere,
    /// The task runs on a subworker and stays where it is.
    Running,
}

/// The task has run to its end with a result of `size` bytes.
#[derive(Clone, Copy, Debug, PartialEq, Eq, Structural)]
pub struct TaskFinishedMsg {
    pub id: TaskId,
    pub size: u64,
}

/// The task has failed.
#[derive(Clone, Copy, Debug, PartialEq, Eq, Structural)]
pub struct TaskErredMsg {
    pub id: TaskId,
}

/// The data object was fetched and is on the worker too.
#[derive(Clone, Copy, Debug, PartialEq, Eq, Structural)]
pub struct DataDownloadedMsg {
    pub id: TaskId,
}

/// No candidate had the data object.
#[derive(Clone, Copy, Debug, PartialEq, Eq, Structural)]
pub struct DataUnavailableMsg {
    pub id: TaskId,
}

/// The answer to a request to give up the task.
#[derive(Clone, Copy, Debug, PartialEq, Eq, Structural)]
pub struct StealResponseMsg {
    pub id: TaskId,
    pub response: StealResponse,
}

/// A message from a worker to the scheduler.
#[derive(Clone, Copy, Debug, PartialEq, Eq, Structural)]
pub enum FromWorkerMessage {
    TaskFinished(TaskFinishedMsg),
    /// The task has failed on its subworker.
    TaskErred(TaskErredMsg),
    DataDownloaded(DataDownloadedMsg),
    /// No candidate had the data object.
    DataUnavailable(DataUnavailableMsg),
    StealResponse(StealResponseMsg),
}

/// Something the reactor wants done outside of its own state. The reactor
/// appends actions to its outbox in the order in which it decides them.
#[derive(Clone, Copy, Debug, PartialEq, Eq)]
pub enum WorkerAction {
    /// Send a message to the scheduler.
    SendToServer(FromWorkerMessage),
    /// Ask the fetcher to bring a remote data object, with the priority of
    /// the task that needs it.
    Download { id: TaskId, priority: Priority },
    /// Hand a task to a subworker.
    StartTask { subworker: SubworkerId, task: TaskId },
}

} // verus!
