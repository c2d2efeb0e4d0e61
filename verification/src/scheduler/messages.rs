//! What the scheduler takes in and what it gives out.

use crate::common::{Priority, PriorityValue, TaskId, WorkerId};
use crate::worker::messages::StealResponse;
use crate::worker::reactor::{dependency_views, Dependency, DependencyView};
use vstd::prelude::*;

verus! {

/// Something that happened and that the scheduler has to react to.
#[allow(inconsistent_fields)]
#[derive(Debug, PartialEq, Eq)]
pub enum SchedulerEvent {
    /// The client submits a task that reads the results of `deps`.
    TaskSubmit { id: TaskId, deps: Vec<TaskId>, priority: PriorityValue, size: Option<u64> },
    /// A worker has done a task, with a result of `size` bytes.
    TaskFinished { worker: WorkerId, id: TaskId, size: u64 },
    /// A task has failed on a worker.
    TaskErred { worker: WorkerId, id: TaskId },
    /// A worker answers a steal.
    TaskStealResponse { worker: WorkerId, id: TaskId, response: StealResponse },
    /// A worker has dropped a result.
    DataRemoved { worker: WorkerId, id: TaskId },
    /// A worker has fetched a result and holds it too.
    DataDownloaded { worker: WorkerId, id: TaskId },
    /// No worker that was named as a holder of the result has it.
    DataUnavailable { id: TaskId },
    /// A worker has joined.
    WorkerAdded { id: WorkerId, address: String, ncpus: u32 },
    /// A worker is gone.
    WorkerLost { id: WorkerId },
    /// The client does not need the result of a task any more.
    ClientRelease { id: TaskId },
    /// Time has passed.
    Tick,
}

/// An event as the state machine sees it.
#[allow(inconsistent_fields)]
pub enum EventView {
    TaskSubmit { id: TaskId, deps: Seq<TaskId>, priority: PriorityValue, size: Option<u64> },
    TaskFinished { worker: WorkerId, id: TaskId, size: u64 },
    TaskErred { worker: WorkerId, id: TaskId },
    TaskStealResponse { worker: WorkerId, id: TaskId, response: StealResponse },
    DataRemoved { worker: WorkerId, id: TaskId },
    DataDownloaded { worker: WorkerId, id: TaskId },
    DataUnavailable { id: TaskId },
    WorkerAdded { id: WorkerId, address: Seq<char>, ncpus: u32 },
    WorkerLost { id: WorkerId },
    ClientRelease { id: TaskId },
    Tick,
}

impl View for SchedulerEvent {
    type V = EventView;

    open spec fn view(&self) -> EventView {
        match self {
            SchedulerEvent::TaskSubmit { id, deps, priority, size } => EventView::TaskSubmit {
                id: *id,
                deps: deps@,
                priority: *priority,
                size: *size,
            },
            SchedulerEvent::TaskFinished { worker, id, size } => EventView::TaskFinished {
                worker: *worker,
                id: *id,
                size: *size,
            },
            SchedulerEvent::TaskErred { worker, id } => EventView::TaskErred {
                worker: *worker,
                id: *id,
            },
            SchedulerEvent::TaskStealResponse { worker, id, response } => EventView::TaskStealResponse {
                worker: *worker,
                id: *id,
                response: *response,
            },
            SchedulerEvent::DataRemoved { worker, id } => EventView::DataRemoved {
                worker: *worker,
                id: *id,
            },
            SchedulerEvent::DataDownloaded { worker, id } => EventView::DataDownloaded {
                worker: *worker,
                id: *id,
            },
            SchedulerEvent::DataUnavailable { id } => EventView::DataUnavailable { id: *id },
            SchedulerEvent::WorkerAdded { id, address, ncpus } => EventView::WorkerAdded {
                id: *id,
                address: address@,
                ncpus: *ncpus,
            },
            SchedulerEvent::WorkerLost { id } => EventView::WorkerLost { id: *id },
            SchedulerEvent::ClientRelease { id } => EventView::ClientRelease { id: *id },
            SchedulerEvent::Tick => EventView::Tick,
        }
    }
}

/// Something the scheduler wants a worker to do.
#[derive(Debug, PartialEq, Eq)]
pub enum SchedulerOutput {
    /// Run the task; each dependency comes with its size and with the
    /// workers that hold it.
    Assign { worker: WorkerId, task: TaskId, priority: Priority, deps: Vec<Dependency> },
    /// Give the task up if it does not run yet.
    Steal { worker: WorkerId, task: TaskId },
    /// Drop the task and its result.
    RemoveTask { worker: WorkerId, task: TaskId },
}

/// An output as the state machine sees it.
pub enum OutputView {
    Assign { worker: WorkerId, task: TaskId, priority: Priority, deps: Seq<DependencyView> },
    Steal { worker: WorkerId, task: TaskId },
    RemoveTask { worker: WorkerId, task: TaskId },
}

impl View for SchedulerOutput {
    type V = OutputView;

    open spec fn view(&self) -> OutputView {
        match self {
            SchedulerOutput::Assign { worker, task, priority, deps } => OutputView::Assign {
                worker: *worker,
                task: *task,
                priority: *priority,
                deps: dependency_views(deps@),
            },
            SchedulerOutput::Steal { worker, task } => OutputView::Steal { worker: *worker, task: *task },
            SchedulerOutput::RemoveTask { worker, task } => OutputView::RemoveTask {
                worker: *worker,
                task: *task,
            },
        }
    }
}

/// The views of the outputs, in their order.
pub open spec fn output_views(outputs: Seq<SchedulerOutput>) -> Seq<OutputView> {
    Seq::new(outputs.len(), |i: int| outputs[i]@)
}

} // verus!
