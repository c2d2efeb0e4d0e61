//! The events of the reactor that are made of several steps.

use crate::common::{Priority, SerializationType, SubworkerId, TaskId, WorkerId};
use crate::worker::data::{DataObject, DataObjectState, DataObjectView, DataStateView, LocalData};
use crate::worker::error::ReactorError;
use crate::worker::messages::{FromWorkerMessage, TaskErredMsg, TaskFinishedMsg};
use crate::worker::model::WorkerView;
use crate::worker::state::WorkerState;
use crate::worker::task::{Task, TaskState, TaskView};
use vstd::prelude::*;

verus! {

/// A dependency as the scheduler names it in an assignment: the data object,
/// its size, and the workers that may hold it.
#[derive(Debug, PartialEq, Eq)]
pub struct Dependency {
    pub id: TaskId,
    pub size: u64,
    pub workers: Vec<WorkerId>,
}

/// What a dependency stands for.
pub struct DependencyView {
    pub id: TaskId,
    pub size: u64,
    pub workers: Seq<WorkerId>,
}

impl View for Dependency {
    type V = DependencyView;

    open spec fn view(&self) -> DependencyView {
        DependencyView { id: self.id, size: self.size, workers: self.workers@ }
    }
}

/// The views of the dependencies, in their order.
pub open spec fn dependency_views(deps: Seq<Dependency>) -> Seq<DependencyView> {
    Seq::new(deps.len(), |i: int| deps[i]@)
}

/// A new task without dependencies.
pub open spec fn new_task(id: TaskId, priority: Priority) -> TaskView {
    TaskView { id, priority, deps: Seq::empty(), state: TaskState::Waiting(0) }
}

impl WorkerView {
    /// The worker and the task after the task has declared `deps`, one
    /// after the other.
    pub open spec fn declare_all(self, task: TaskView, deps: Seq<DependencyView>) -> (
        WorkerView,
        TaskView,
    )
        decreases deps.len(),
    {
        if deps.len() == 0 {
            (self, task)
        } else {
            let (worker, declared) = self.declare_all(task, deps.drop_last());
            let last = deps.last();
            (
                worker.add_dependancy(declared, last.id, last.size, last.workers),
                worker.task_with_dependancy(declared, last.id),
            )
        }
    }

    /// Why the assignment of the task `id` with `deps` is refused, if it is.
    pub open spec fn assign_error(self, id: TaskId, deps: Seq<DependencyView>) -> Option<
        ReactorError,
    > {
        if self.tasks.contains_key(id) {
            Some(ReactorError::TaskAlreadyKnown)
        } else if exists|i: int, j: int| 0 <= i < j < deps.len() && deps[i].id == deps[j].id {
            Some(ReactorError::DependencyRepeated)
        } else {
            None
        }
    }

    /// The worker after the scheduler has assigned the task `id`. A refused
    /// assignment changes nothing. Otherwise the task declares its
    /// dependencies and is added.
    pub open spec fn on_assign(self, id: TaskId, priority: Priority, deps: Seq<DependencyView>) -> WorkerView {
        if self.assign_error(id, deps) is Some {
            self
        } else {
            let (worker, task) = self.declare_all(new_task(id, priority), deps);
            worker.add_task(task)
        }
    }

    /// The task `id` runs on `subworker`.
    pub open spec fn runs_on(self, id: TaskId, subworker: SubworkerId) -> bool {
        self.tasks.contains_key(id) && self.tasks[id].state == TaskState::Running(subworker)
    }

    /// The worker after `subworker` has reported the end of the task `id`. A
    /// report about a task that the subworker does not run changes nothing.
    /// Otherwise the task leaves the worker, the subworker is free, and the
    /// scheduler is told the size of the result.
    pub open spec fn on_task_finished(self, subworker: SubworkerId, id: TaskId, size: u64) -> WorkerView {
        if self.runs_on(id, subworker) {
            self.remove_task(id).send_message_to_server(
                FromWorkerMessage::TaskFinished(TaskFinishedMsg { id, size }),
            )
        } else {
            self
        }
    }

    /// The worker after `subworker` has reported that the task `id` has
    /// failed. A report about a task that the subworker does not run changes
    /// nothing. Otherwise the task leaves the worker, the subworker is
    /// free, and the scheduler is told of the failure.
    pub open spec fn on_task_erred(self, subworker: SubworkerId, id: TaskId) -> WorkerView {
        if self.runs_on(id, subworker) {
            self.remove_task(id).send_message_to_server(
                FromWorkerMessage::TaskErred(TaskErredMsg { id }),
            )
        } else {
            self
        }
    }

    /// The data object that holds the result `bytes` of the task `id`.
    pub open spec fn result_object(id: TaskId, bytes: Seq<u8>, serializer: SerializationType) -> DataObjectView {
        DataObjectView {
            id,
            size: bytes.len() as u64,
            state: DataStateView::Local(serializer, bytes),
            consumers: Set::empty(),
        }
    }

    /// The worker after `subworker` has handed over the result `bytes` of
    /// the task `id`. A result for a task that the subworker does not run
    /// changes nothing. Otherwise the task ends as it does on a report of
    /// its end, its result is entered as a data object made here, and ready
    /// tasks are started.
    pub open spec fn on_task_done(
        self,
        subworker: SubworkerId,
        id: TaskId,
        bytes: Seq<u8>,
        serializer: SerializationType,
    ) -> WorkerView {
        if self.runs_on(id, subworker) {
            self.on_task_finished(subworker, id, bytes.len() as u64).add_data_object(
                Self::result_object(id, bytes, serializer),
            ).try_start_tasks()
        } else {
            self
        }
    }

    /// The worker after `subworker` has given up the task `id` with a
    /// failure. A report about a task that the subworker does not run
    /// changes nothing. Otherwise the task ends as it does on a report of
    /// its failure, and ready tasks are started.
    pub open spec fn on_task_failed(self, subworker: SubworkerId, id: TaskId) -> WorkerView {
        if self.runs_on(id, subworker) {
            self.on_task_erred(subworker, id).try_start_tasks()
        } else {
            self
        }
    }
}

/// Tells whether `id` is the identifier of one of the first `end`
/// dependencies.
fn named_before(deps: &Vec<Dependency>, end: usize, id: TaskId) -> (found: bool)
    requires
        end <= deps@.len(),
    ensures
        found == exists|i: int| 0 <= i < end && deps@[i].id == id,
{
    let mut i: usize = 0;
    while i < end
        invariant
            i <= end <= deps@.len(),
            forall|j: int| 0 <= j < i ==> deps@[j].id != id,
        decreases end - i,
    {
        if deps[i].id == id {
            return true;
        }
        i += 1;
    }
    false
}

impl WorkerState {
    /// Finds out whether the assignment of the task `id` with `deps` has to
    /// be refused.
    fn check_assignment(&self, id: TaskId, deps: &Vec<Dependency>) -> (error: Option<ReactorError>)
        requires
            self.wf(),
        ensures
            error == self@.assign_error(id, dependency_views(deps@)),
    {
        let ghost views = dependency_views(deps@);
        if self.task(id).is_some() {
            return Some(ReactorError::TaskAlreadyKnown);
        }
        let mut j: usize = 0;
        while j < deps.len()
            invariant
                j <= deps@.len(),
                views == dependency_views(deps@),
                !self@.tasks.contains_key(id),
                forall|a: int, b: int| 0 <= a < b < j ==> views[a].id != views[b].id,
            decreases deps@.len() - j,
        {
            if named_before(deps, j, deps[j].id) {
                proof {
                    let a = choose|a: int| 0 <= a < j && deps@[a].id == deps@[j as int].id;
                    assert(views[a] == deps@[a]@);
                    assert(views[j as int] == deps@[j as int]@);
                    assert(0 <= a < j < views.len() && views[a].id == views[j as int].id);
                }
                return Some(ReactorError::DependencyRepeated);
            }
            proof {
                assert forall|a: int, b: int| 0 <= a < b < j + 1 implies views[a].id != views[b].id by {
                    assert(views[a] == deps@[a]@);
                    assert(views[b] == deps@[b]@);
                    if b == j {
                        assert(deps@[a].id != deps@[j as int].id);
                    }
                }
            }
            j += 1;
        }
        None
    }

    /// Takes in a task that the scheduler has assigned to this worker, with
    /// the data objects it reads. The task declares each dependency in turn;
    /// it is then added, and starts at once if all it reads is here and a
    /// subworker is free. An assignment is refused, and changes nothing, when
    /// the worker has the task already or when a dependency is named twice.
    pub fn on_assign(&mut self, id: TaskId, priority: Priority, deps: Vec<Dependency>) -> (result:
        Result<(), ReactorError>)
        requires
            old(self).wf(),
        ensures
            final(self).wf(),
            final(self)@ == old(self)@.on_assign(id, priority, dependency_views(deps@)),
            result == match old(self)@.assign_error(id, dependency_views(deps@)) {
                Some(error) => Err::<(), ReactorError>(error),
                None => Ok(()),
            },
    {
        let ghost before = self@;
        let ghost views = dependency_views(deps@);
        match self.check_assignment(id, &deps) {
            Some(error) => {
                return Err(error);
            },
            None => {},
        }
        let mut task = Task::new(id, priority);
        proof {
            before.lemma_begin_task(task@);
            assert(views.take(0) =~= Seq::empty());
        }
        let mut i: usize = 0;
        while i < deps.len()
            invariant
                i <= deps@.len(),
                views == dependency_views(deps@),
                before.assign_error(id, views) is None,
                self.wf_with(Some(task@)),
                (self@, task@) == before.declare_all(new_task(id, priority), views.take(i as int)),
                task@.deps == Seq::new(i as nat, |j: int| views[j].id),
            decreases deps@.len() - i,
        {
            let ghost current = self@;
            let ghost declared = task@;
            let dep = &deps[i];
            let workers = dep.workers.clone();
            proof {
                assert(views[i as int] == deps@[i as int]@);
                assert(workers@ =~= dep.workers@);
                assert(!declared.deps.contains(dep.id)) by {
                    if declared.deps.contains(dep.id) {
                        let j = choose|j: int| 0 <= j < declared.deps.len() && declared.deps[j] == dep.id;
                        assert(views[j].id == views[i as int].id);
                    }
                }
            }
            self.add_dependancy(&mut task, dep.id, dep.size, workers);
            proof {
                let next = views.take(i + 1);
                assert(next.drop_last() =~= views.take(i as int));
                assert(next.last() == views[i as int]);
                assert(task@.deps =~= Seq::new((i + 1) as nat, |j: int| views[j].id));
            }
            i += 1;
        }
        proof {
            assert(views.take(i as int) =~= views);
            let (worker, declared) = before.declare_all(new_task(id, priority), views);
            assert(worker == self@);
            assert(declared == task@);
        }
        self.add_task(task);
        Ok(())
    }

    /// Takes in the report of `subworker` that the task `id` has run to its
    /// end with a result of `size` bytes. The subworker is free again, the
    /// task leaves the worker, its dependencies lose it as a consumer, and
    /// the scheduler is told. A report about a task that the subworker does
    /// not run is refused and changes nothing.
    pub fn on_task_finished(&mut self, subworker: SubworkerId, id: TaskId, size: u64) -> (result:
        Result<(), ReactorError>)
        requires
            old(self).wf(),
        ensures
            final(self).wf(),
            final(self)@ == old(self)@.on_task_finished(subworker, id, size),
            result == if old(self)@.runs_on(id, subworker) {
                Ok::<(), ReactorError>(())
            } else {
                Err(ReactorError::TaskNotRunning)
            },
    {
        if !self.runs_on(id, subworker) {
            return Err(ReactorError::TaskNotRunning);
        }
        self.remove_task(id, true);
        self.send_message_to_server(FromWorkerMessage::TaskFinished(TaskFinishedMsg { id, size }));
        Ok(())
    }

    /// Tells whether the task `id` runs on `subworker`.
    fn runs_on(&self, id: TaskId, subworker: SubworkerId) -> (runs: bool)
        requires
            self.wf(),
        ensures
            runs == self@.runs_on(id, subworker),
    {
        match self.task(id) {
            Some(task) => match task.state {
                TaskState::Running(on) => on == subworker,
                _ => false,
            },
            None => false,
        }
    }

    /// Takes in the report of `subworker` that the task `id` has failed. The
    /// subworker is free again, the task leaves the worker, its dependencies
    /// lose it as a consumer, and the scheduler is told of the failure. A
    /// report about a task that the subworker does not run is refused and
    /// changes nothing.
    pub fn on_task_erred(&mut self, subworker: SubworkerId, id: TaskId) -> (result: Result<
        (),
        ReactorError,
    >)
        requires
            old(self).wf(),
        ensures
            final(self).wf(),
            final(self)@ == old(self)@.on_task_erred(subworker, id),
            result == if old(self)@.runs_on(id, subworker) {
                Ok::<(), ReactorError>(())
            } else {
                Err(ReactorError::TaskNotRunning)
            },
    {
        if !self.runs_on(id, subworker) {
            return Err(ReactorError::TaskNotRunning);
        }
        self.remove_task(id, true);
        self.send_message_to_server(FromWorkerMessage::TaskErred(TaskErredMsg { id }));
        Ok(())
    }

    /// Takes in the result `data` that `subworker` hands over for the task
    /// `id`, which it has run to its end. The task ends as on a report of
    /// its end, with the length of `data` as the size; the result is entered
    /// as a data object made here; and ready tasks are started, on the
    /// subworker that is free now too. A result for a task that the
    /// subworker does not run is refused: nothing is entered and nothing
    /// changes.
    pub fn on_task_done(
        &mut self,
        subworker: SubworkerId,
        id: TaskId,
        data: Vec<u8>,
        serializer: SerializationType,
    ) -> (result: Result<(), ReactorError>)
        requires
            old(self).wf(),
        ensures
            final(self).wf(),
            final(self)@ == old(self)@.on_task_done(subworker, id, data@, serializer),
            result == if old(self)@.runs_on(id, subworker) {
                Ok::<(), ReactorError>(())
            } else {
                Err(ReactorError::TaskNotRunning)
            },
    {
        let size = data.len() as u64;
        match self.on_task_finished(subworker, id, size) {
            Err(error) => {
                return Err(error);
            },
            Ok(()) => {},
        }
        let object = DataObject::new(
            id,
            size,
            DataObjectState::Local(LocalData { serializer, bytes: data }),
        );
        self.add_data_object(object);
        self.try_start_tasks();
        Ok(())
    }

    /// Takes in the report of `subworker` that the task `id` has failed, as
    /// `on_task_erred` does, and then starts ready tasks, on the subworker
    /// that is free now too. A report about a task that the subworker does
    /// not run is refused and changes nothing.
    pub fn on_task_failed(&mut self, subworker: SubworkerId, id: TaskId) -> (result: Result<
        (),
        ReactorError,
    >)
        requires
            old(self).wf(),
        ensures
            final(self).wf(),
            final(self)@ == old(self)@.on_task_failed(subworker, id),
            result == if old(self)@.runs_on(id, subworker) {
                Ok::<(), ReactorError>(())
            } else {
                Err(ReactorError::TaskNotRunning)
            },
    {
        match self.on_task_erred(subworker, id) {
            Err(error) => {
                return Err(error);
            },
            Ok(()) => {},
        }
        self.try_start_tasks();
        Ok(())
    }
}

} // verus!
