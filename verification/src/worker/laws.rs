//! What holds of the reactor whatever happens to it.

use crate::common::{Priority, SerializationType, SubworkerId, TaskId, WorkerId};
use crate::queue::key_le;
use crate::worker::data::{DataObjectView, DataStateView};
use crate::worker::messages::{StealResponse, WorkerAction};
use crate::worker::model::{is_local, lemma_pending_count_bound, ready_of, WorkerView};
use crate::worker::reactor::{new_task, DependencyView};
use crate::worker::task::{TaskState, TaskView};
use vstd::prelude::*;

verus! {

/// What can happen to a worker.
pub enum WorkerEvent {
    /// The scheduler assigns a task.
    Assign { id: TaskId, priority: Priority, deps: Seq<DependencyView> },
    /// A download has ended.
    DataDownloaded { id: TaskId, bytes: Seq<u8>, serializer: SerializationType },
    /// No candidate had a data object.
    DataUnavailable { id: TaskId },
    /// A data object was made on this worker.
    DataProduced { object: DataObjectView },
    /// A subworker has run a task to its end.
    TaskFinished { subworker: SubworkerId, id: TaskId, size: u64 },
    /// A task has failed on its subworker.
    TaskErred { subworker: SubworkerId, id: TaskId },
    /// A subworker hands over the result of a task.
    TaskDone { subworker: SubworkerId, id: TaskId, bytes: Seq<u8>, serializer: SerializationType },
    /// A subworker gives up a task with a failure, and ready tasks start.
    TaskFailed { subworker: SubworkerId, id: TaskId },
    /// The scheduler asks to give up a task.
    Steal { id: TaskId },
    /// The scheduler asks to remove a data object.
    RemoveData { id: TaskId },
    /// Ready tasks are started.
    TryStart,
}

impl WorkerView {
    /// The event can be handed to the reactor: an object made here is
    /// local, and an assignment names fewer dependencies than a vector can
    /// hold.
    pub open spec fn accepts(self, event: WorkerEvent) -> bool {
        match event {
            WorkerEvent::Assign { id, priority, deps } => deps.len() < usize::MAX,
            WorkerEvent::DataProduced { object } => object.state is Local,
            _ => true,
        }
    }

    /// The worker after the event.
    pub open spec fn step(self, event: WorkerEvent) -> WorkerView {
        match event {
            WorkerEvent::Assign { id, priority, deps } => self.on_assign(id, priority, deps),
            WorkerEvent::DataDownloaded { id, bytes, serializer } => self.on_data_downloaded(
                id,
                bytes,
                serializer,
            ),
            WorkerEvent::DataUnavailable { id } => self.on_data_unavailable(id),
            WorkerEvent::DataProduced { object } => self.add_data_object(object),
            WorkerEvent::TaskFinished { subworker, id, size } => self.on_task_finished(
                subworker,
                id,
                size,
            ),
            WorkerEvent::TaskErred { subworker, id } => self.on_task_erred(subworker, id),
            WorkerEvent::TaskDone { subworker, id, bytes, serializer } => self.on_task_done(
                subworker,
                id,
                bytes,
                serializer,
            ),
            WorkerEvent::TaskFailed { subworker, id } => self.on_task_failed(subworker, id),
            WorkerEvent::Steal { id } => self.steal_task(id),
            WorkerEvent::RemoveData { id } => self.remove_data(id),
            WorkerEvent::TryStart => self.try_start_tasks(),
        }
    }

    /// A declared dependency can be read: whatever the worker knew of the
    /// object before, afterwards the object is known and not removed, and
    /// the task is among its readers. If the bytes are here the task waits
    /// no longer than before and nothing is asked for; otherwise the
    /// object is remote with the candidates just named, the task waits for
    /// one dependency more, and one download is asked for, with the
    /// priority of the task.
    pub proof fn lemma_declared_is_readable(
        self,
        task: TaskView,
        dep: TaskId,
        size: u64,
        workers: Seq<WorkerId>,
    )
        ensures
            self.add_dependancy(task, dep, size, workers).data_objects.contains_key(dep),
            self.add_dependancy(task, dep, size, workers).data_objects[dep].consumers.contains(task.id),
            is_local(self.data_objects, dep) ==> {
                &&& self.add_dependancy(task, dep, size, workers).data_objects[dep].state
                    == self.data_objects[dep].state
                &&& self.add_dependancy(task, dep, size, workers).outbox == self.outbox
                &&& self.task_with_dependancy(task, dep).state == task.state
            },
            !is_local(self.data_objects, dep) ==> {
                &&& self.add_dependancy(task, dep, size, workers).data_objects[dep].state
                    == DataStateView::Remote(workers)
                &&& self.add_dependancy(task, dep, size, workers).outbox == self.outbox.push(
                    WorkerAction::Download { id: dep, priority: task.priority },
                )
                &&& self.task_with_dependancy(task, dep).state == TaskState::Waiting(
                    (task.waiting() + 1) as usize,
                )
            },
    {
    }

    /// Declaring dependencies one after the other keeps the worker
    /// consistent.
    pub proof fn lemma_declare_all(self, task: TaskView, deps: Seq<DependencyView>)
        requires
            self.inv_with(Some(task)),
            task.deps.len() + deps.len() < usize::MAX,
            forall|i: int, j: int| 0 <= i < j < deps.len() ==> deps[i].id != deps[j].id,
            forall|i: int| 0 <= i < deps.len() ==> !task.deps.contains(#[trigger] deps[i].id),
        ensures
            self.declare_all(task, deps).0.inv_with(Some(self.declare_all(task, deps).1)),
            self.declare_all(task, deps).1.id == task.id,
            self.declare_all(task, deps).1.deps == task.deps + Seq::new(deps.len(), |i: int| deps[i].id),
        decreases deps.len(),
    {
        if deps.len() == 0 {
            assert(self.declare_all(task, deps) == (self, task));
            assert(task.deps + Seq::new(deps.len(), |i: int| deps[i].id) =~= task.deps);
        } else {
            let rest = deps.drop_last();
            let last = deps.last();
            assert(last == deps[deps.len() - 1]);
            assert forall|i: int| 0 <= i < rest.len() implies rest[i] == deps[i] by {}
            self.lemma_declare_all(task, rest);
            let (worker, declared) = self.declare_all(task, rest);
            let ids = Seq::new(rest.len(), |i: int| rest[i].id);
            assert(!declared.deps.contains(last.id)) by {
                if declared.deps.contains(last.id) {
                    let k = choose|k: int| 0 <= k < declared.deps.len() && declared.deps[k] == last.id;
                    if k < task.deps.len() {
                        assert(task.deps[k] == last.id);
                        assert(task.deps.contains(deps[deps.len() - 1].id));
                    } else {
                        assert(ids[k - task.deps.len()] == last.id);
                        assert(rest[k - task.deps.len()].id == deps[deps.len() - 1].id);
                    }
                }
            }
            worker.lemma_add_dependancy(declared, last.id, last.size, last.workers);
            assert(self.declare_all(task, deps).1.deps =~= task.deps + Seq::new(
                deps.len(),
                |i: int| deps[i].id,
            ));
        }
    }

    /// An assignment keeps the worker consistent, whether it is carried out
    /// or refused.
    pub proof fn lemma_on_assign(self, id: TaskId, priority: Priority, deps: Seq<DependencyView>)
        requires
            self.inv(),
            deps.len() < usize::MAX,
        ensures
            self.on_assign(id, priority, deps).inv(),
    {
        if self.assign_error(id, deps) is None {
            let task = new_task(id, priority);
            self.lemma_begin_task(task);
            self.lemma_declare_all(task, deps);
            let (worker, declared) = self.declare_all(task, deps);
            worker.lemma_add_task(declared);
        }
    }

    /// The end of a task keeps the worker consistent, whether the report is
    /// taken in or refused.
    pub proof fn lemma_on_task_finished(self, subworker: SubworkerId, id: TaskId, size: u64)
        requires
            self.inv(),
        ensures
            self.on_task_finished(subworker, id, size).inv(),
    {
        if self.runs_on(id, subworker) {
            self.lemma_remove_task(id);
            let removed = self.remove_task(id);
            removed.lemma_outbox(self.on_task_finished(subworker, id, size).outbox);
        }
    }

    /// The failure of a task keeps the worker consistent, whether the
    /// report is taken in or refused.
    pub proof fn lemma_on_task_erred(self, subworker: SubworkerId, id: TaskId)
        requires
            self.inv(),
        ensures
            self.on_task_erred(subworker, id).inv(),
    {
        if self.runs_on(id, subworker) {
            self.lemma_remove_task(id);
            self.remove_task(id).lemma_outbox(self.on_task_erred(subworker, id).outbox);
        }
    }

    /// A result that is handed over keeps the worker consistent, whether
    /// it is taken in or refused.
    pub proof fn lemma_on_task_done(
        self,
        subworker: SubworkerId,
        id: TaskId,
        bytes: Seq<u8>,
        serializer: SerializationType,
    )
        requires
            self.inv(),
        ensures
            self.on_task_done(subworker, id, bytes, serializer).inv(),
    {
        if self.runs_on(id, subworker) {
            let ended = self.on_task_finished(subworker, id, bytes.len() as u64);
            self.lemma_on_task_finished(subworker, id, bytes.len() as u64);
            let object = Self::result_object(id, bytes, serializer);
            ended.lemma_add_data_object(object);
            ended.add_data_object(object).lemma_try_start_tasks();
        }
    }

    /// A consistent worker is consistent after every event that it accepts.
    pub proof fn lemma_step_keeps_inv(self, event: WorkerEvent)
        requires
            self.inv(),
            self.accepts(event),
        ensures
            self.step(event).inv(),
    {
        match event {
            WorkerEvent::Assign { id, priority, deps } => {
                self.lemma_on_assign(id, priority, deps);
            },
            WorkerEvent::DataDownloaded { id, bytes, serializer } => {
                if self.data_objects.contains_key(id) && self.data_objects[id].state is Remote {
                    self.lemma_data_arrived(id, bytes, serializer);
                }
            },
            WorkerEvent::DataUnavailable { id } => {
                self.lemma_outbox(self.on_data_unavailable(id).outbox);
            },
            WorkerEvent::DataProduced { object } => {
                self.lemma_add_data_object(object);
            },
            WorkerEvent::TaskFinished { subworker, id, size } => {
                self.lemma_on_task_finished(subworker, id, size);
            },
            WorkerEvent::TaskErred { subworker, id } => {
                self.lemma_on_task_erred(subworker, id);
            },
            WorkerEvent::TaskDone { subworker, id, bytes, serializer } => {
                self.lemma_on_task_done(subworker, id, bytes, serializer);
            },
            WorkerEvent::TaskFailed { subworker, id } => {
                self.lemma_on_task_erred(subworker, id);
                if self.runs_on(id, subworker) {
                    self.on_task_erred(subworker, id).lemma_try_start_tasks();
                }
            },
            WorkerEvent::Steal { id } => {
                if self.steal_response(id) == StealResponse::Success {
                    self.lemma_remove_task(id);
                }
            },
            WorkerEvent::RemoveData { id } => {
                self.lemma_remove_data(id);
            },
            WorkerEvent::TryStart => {
                self.lemma_try_start_tasks();
            },
        }
    }

    /// Dependency safety: after every event, each task that runs on a
    /// subworker has all the data objects it reads on this worker.
    pub proof fn lemma_dependency_safety(self, event: WorkerEvent, task: TaskId)
        requires
            self.inv(),
            self.accepts(event),
            self.step(event).tasks.contains_key(task),
            self.step(event).tasks[task].state is Running,
        ensures
            forall|i: int|
                0 <= i < self.step(event).tasks[task].deps.len() ==> is_local(
                    self.step(event).data_objects,
                    #[trigger] self.step(event).tasks[task].deps[i],
                ),
    {
        self.lemma_step_keeps_inv(event);
        let after = self.step(event);
        assert(after.all_tasks(None).contains_key(task));
        assert(after.task_ok(after.tasks[task], task));
        lemma_pending_count_bound(after.tasks[task].deps, after.data_objects);
    }

    /// A task is started only when all the data objects it reads are local.
    pub proof fn lemma_started_with_local_deps(self, task: TaskId)
        requires
            self.inv(),
            self.ready.contains_key(task),
        ensures
            forall|i: int|
                0 <= i < self.tasks[task].deps.len() ==> is_local(
                    self.data_objects,
                    #[trigger] self.tasks[task].deps[i],
                ),
    {
        assert(self.all_tasks(None).contains_key(task));
        assert(self.task_ok(self.tasks[task], task));
        lemma_pending_count_bound(self.tasks[task].deps, self.data_objects);
    }

    /// Consumer consistency: after every event, the consumers of each data
    /// object are exactly the tasks that read it.
    pub proof fn lemma_consumer_consistency(self, event: WorkerEvent, dep: TaskId)
        requires
            self.inv(),
            self.accepts(event),
            self.step(event).data_objects.contains_key(dep),
        ensures
            self.step(event).data_objects[dep].consumers == Set::new(
                |task: TaskId|
                    self.step(event).tasks.contains_key(task) && self.step(event).tasks[task].deps.contains(
                        dep,
                    ),
            ),
    {
        self.lemma_step_keeps_inv(event);
        let after = self.step(event);
        let readers = Set::new(
            |task: TaskId| after.tasks.contains_key(task) && after.tasks[task].deps.contains(dep),
        );
        assert(after.data_ok(None, dep));
        assert forall|task: TaskId| after.data_objects[dep].consumers.contains(task)
            == readers.contains(task) by {
            if after.data_objects[dep].consumers.contains(task) {
                assert(after.all_tasks(None).contains_key(task));
            }
            if readers.contains(task) {
                assert(after.all_tasks(None).contains_key(task));
                assert(after.task_ok(after.tasks[task], task));
                let k = choose|k: int|
                    0 <= k < after.tasks[task].deps.len() && after.tasks[task].deps[k] == dep;
                assert(after.data_objects[after.tasks[task].deps[k]].consumers.contains(task));
            }
        }
        assert(after.data_objects[dep].consumers =~= readers);
    }

    /// No task runs twice on a worker: a running task is on one subworker,
    /// and that subworker runs it and nothing else.
    pub proof fn lemma_single_run(self, event: WorkerEvent, task: TaskId, subworker: SubworkerId)
        requires
            self.inv(),
            self.accepts(event),
            self.step(event).subworkers.contains_key(subworker),
            self.step(event).subworkers[subworker].running_task == Some(task),
        ensures
            self.step(event).tasks.contains_key(task),
            self.step(event).tasks[task].state == TaskState::Running(subworker),
            forall|other: SubworkerId|
                self.step(event).subworkers.contains_key(other) && #[trigger] self.step(
                    event,
                ).subworkers[other].running_task == Some(task) ==> other == subworker,
    {
        self.lemma_step_keeps_inv(event);
    }

    /// Steal idempotence: of several requests to give up the same task at
    /// most one changes the worker. After a request that was granted, the
    /// next one finds the task gone and changes nothing; a request that was
    /// not granted has changed nothing.
    pub proof fn lemma_steal_idempotent(self, id: TaskId)
        requires
            self.inv(),
        ensures
            self.steal_response(id) == StealResponse::Success ==> {
                &&& self.steal_task(id).steal_response(id) == StealResponse::NotHere
                &&& self.steal_task(id).steal_task(id) == self.steal_task(id)
            },
            self.steal_response(id) != StealResponse::Success ==> self.steal_task(id) == self,
    {
    }
}

/// The action at position `at` of the outbox hands `task` to a subworker.
pub open spec fn started_at(outbox: Seq<WorkerAction>, task: TaskId, at: int) -> bool {
    &&& 0 <= at < outbox.len()
    &&& outbox[at] matches WorkerAction::StartTask { task: started, .. }
    &&& started == task
}

impl WorkerView {
    /// Starting tasks only appends to the outbox, leaves alone the tasks
    /// that were not ready, and announces each task it starts.
    pub proof fn lemma_try_start_appends(self)
        requires
            self.inv(),
        ensures
            self.outbox.is_prefix_of(self.try_start_tasks().outbox),
            self.try_start_tasks().tasks.dom() == self.tasks.dom(),
            forall|task: TaskId|
                self.tasks.contains_key(task) && !self.ready.contains_key(task)
                    ==> #[trigger] self.try_start_tasks().tasks[task] == self.tasks[task],
            forall|task: TaskId|
                self.ready.contains_key(task) && (#[trigger] self.try_start_tasks().tasks[task]).state is Running
                    ==> exists|at: int|
                    self.outbox.len() <= at && started_at(self.try_start_tasks().outbox, task, at),
        decreases self.free_subworkers.len(),
    {
        let after = self.try_start_tasks();
        if self.free_subworkers.len() == 0 || !self.has_ready() {
            assert forall|task: TaskId|
                self.ready.contains_key(task) && (#[trigger] after.tasks[task]).state is Running implies exists|
                at: int,
            | self.outbox.len() <= at && started_at(after.outbox, task, at) by {
                assert(self.tasks[task].is_ready());
            }
        } else {
            let best = self.best_ready();
            self.lemma_best_exists();
            self.lemma_start_task(best);
            let next = self.start_task(best);
            next.lemma_try_start_appends();
            assert(next.tasks.dom() =~= self.tasks.dom());
            assert(after.outbox[self.outbox.len() as int] == next.outbox[self.outbox.len() as int]);
            assert forall|task: TaskId|
                self.ready.contains_key(task) && (#[trigger] after.tasks[task]).state is Running implies exists|
                at: int,
            | self.outbox.len() <= at && started_at(after.outbox, task, at) by {
                if task == best {
                    assert(started_at(after.outbox, task, self.outbox.len() as int));
                } else {
                    assert(next.ready.contains_key(task));
                    let at = choose|at: int|
                        next.outbox.len() <= at && started_at(after.outbox, task, at);
                    assert(self.outbox.len() <= at && started_at(after.outbox, task, at));
                }
            }
        }
    }

    /// Priority honoured: of two tasks that are ready at the same time, the
    /// one with the larger key is started only after the one with the
    /// smaller key.
    pub proof fn lemma_priority_honored(self, first: TaskId, second: TaskId)
        requires
            self.inv(),
            self.ready.contains_key(first),
            self.ready.contains_key(second),
            first != second,
            key_le(self.ready[first], self.ready[second]),
            self.try_start_tasks().tasks[second].state is Running,
        ensures
            exists|i: int, j: int|
                self.outbox.len() <= i < j && started_at(self.try_start_tasks().outbox, first, i)
                    && started_at(self.try_start_tasks().outbox, second, j),
        decreases self.free_subworkers.len(),
    {
        let after = self.try_start_tasks();
        assert(self.tasks[second].is_ready());
        assert(self.all_tasks(None).contains_key(first));
        assert(self.all_tasks(None).contains_key(second));
        assert(self.task_ok(self.tasks[first], first));
        assert(self.task_ok(self.tasks[second], second));
        if self.free_subworkers.len() == 0 || !self.has_ready() {
        } else {
            let best = self.best_ready();
            self.lemma_best_exists();
            self.lemma_start_task(best);
            let next = self.start_task(best);
            next.lemma_try_start_appends();
            if best == first {
                let i = self.outbox.len() as int;
                assert(after.outbox[i] == next.outbox[i]);
                assert(started_at(after.outbox, first, i));
                assert(next.ready.contains_key(second));
                let j = choose|j: int| next.outbox.len() <= j && started_at(after.outbox, second, j);
                assert(self.outbox.len() <= i < j && started_at(after.outbox, first, i) && started_at(
                    after.outbox,
                    second,
                    j,
                ));
            } else if best == second {
                assert(key_le(self.ready[second], self.ready[first]));
                assert(false);
            } else {
                next.lemma_priority_honored(first, second);
                let (i, j) = choose|i: int, j: int|
                    next.outbox.len() <= i < j && started_at(after.outbox, first, i) && started_at(
                        after.outbox,
                        second,
                        j,
                    );
                assert(self.outbox.len() <= i < j && started_at(after.outbox, first, i) && started_at(
                    after.outbox,
                    second,
                    j,
                ));
            }
        }
    }

    /// Starting tasks leaves the data objects alone.
    pub proof fn lemma_try_start_keeps_data(self)
        ensures
            self.try_start_tasks().data_objects == self.data_objects,
        decreases self.free_subworkers.len(),
    {
        if self.free_subworkers.len() == 0 || !self.has_ready() {
        } else {
            self.start_task(self.best_ready()).lemma_try_start_keeps_data();
        }
    }

    /// Declaring dependencies makes no known data object go away. A local
    /// object stays local and a remote one remote; a removed object stays
    /// removed unless it is declared, which enters a new remote object under
    /// its identifier.
    pub proof fn lemma_declare_keeps_states(self, task: TaskView, deps: Seq<DependencyView>, id: TaskId)
        requires
            self.data_objects.contains_key(id),
        ensures
            self.declare_all(task, deps).0.data_objects.contains_key(id),
            state_kept(self.data_objects[id].state, self.declare_all(task, deps).0.data_objects[id].state),
            self.data_objects[id].state is Removed && (forall|i: int|
                0 <= i < deps.len() ==> (#[trigger] deps[i]).id != id) ==> self.declare_all(
                task,
                deps,
            ).0.data_objects[id].state is Removed,
        decreases deps.len(),
    {
        if deps.len() > 0 {
            let rest = deps.drop_last();
            self.lemma_declare_keeps_states(task, rest, id);
            assert forall|i: int| 0 <= i < rest.len() implies rest[i] == deps[i] by {}
            assert(deps[deps.len() - 1] == deps.last());
        }
    }

    /// Entering a data object made here changes the state of no other
    /// object, and leaves no object unknown that was known.
    pub proof fn lemma_add_data_object_keeps_states(self, object: DataObjectView, id: TaskId)
        requires
            self.data_objects.contains_key(id),
        ensures
            self.add_data_object(object).data_objects.contains_key(id),
            id != object.id ==> self.add_data_object(object).data_objects[id] == self.data_objects[id],
            id == object.id ==> self.add_data_object(object).data_objects[id].state == object.state,
    {
        let known = self.data_objects.contains_key(object.id) && self.data_objects[object.id].state
            is Remote;
        if known {
            (WorkerView {
                data_objects: self.data_objects.insert(object.id, self.entered(object)),
                tasks: self.notify_consumers(object.id),
                ready: ready_of(self.notify_consumers(object.id)),
                ..self
            }).lemma_try_start_keeps_data();
        }
    }

    /// Local data stays local, and removed data stays removed: after every
    /// event, a data object that was local is local if it is still known,
    /// and under the identifier of one that was removed there is a removed
    /// object still, unless a new object was entered there: one made on this
    /// worker, or one declared by a task that was assigned.
    pub proof fn lemma_states_are_final(self, event: WorkerEvent, id: TaskId)
        requires
            self.inv(),
            self.accepts(event),
            self.data_objects.contains_key(id),
            self.step(event).data_objects.contains_key(id),
        ensures
            self.data_objects[id].state is Local ==> self.step(event).data_objects[id].state is Local,
            self.data_objects[id].state is Removed ==> self.step(event).data_objects[id].state
                is Removed || self.enters_anew(event, id),
    {
        match event {
            WorkerEvent::Assign { id: assigned, priority, deps } => {
                if self.assign_error(assigned, deps) is None {
                    let task = new_task(assigned, priority);
                    self.lemma_declare_keeps_states(task, deps, id);
                    let (worker, declared) = self.declare_all(task, deps);
                    worker.insert_task(declared).lemma_try_start_keeps_data();
                }
            },
            WorkerEvent::DataDownloaded { id: arrived, bytes, serializer } => {
                if self.data_objects.contains_key(arrived) && self.data_objects[arrived].state is Remote {
                    self.data_arrived(arrived, bytes, serializer).lemma_try_start_keeps_data();
                }
            },
            WorkerEvent::DataProduced { object } => {
                self.lemma_add_data_object_keeps_states(object, id);
            },
            WorkerEvent::TaskDone { subworker, id: task, bytes, serializer } => {
                if self.runs_on(task, subworker) {
                    let ended = self.on_task_finished(subworker, task, bytes.len() as u64);
                    let object = Self::result_object(task, bytes, serializer);
                    ended.lemma_add_data_object_keeps_states(object, id);
                    ended.add_data_object(object).lemma_try_start_keeps_data();
                }
            },
            WorkerEvent::TaskFailed { subworker, id: task } => {
                if self.runs_on(task, subworker) {
                    self.on_task_erred(subworker, task).lemma_try_start_keeps_data();
                }
            },
            WorkerEvent::TryStart => {
                self.lemma_try_start_keeps_data();
            },
            _ => {},
        }
    }

    /// The event enters a new data object under `id`: one made on this
    /// worker, or one that a newly assigned task reads and that is to be
    /// fetched.
    pub open spec fn enters_anew(self, event: WorkerEvent, id: TaskId) -> bool {
        match event {
            WorkerEvent::DataProduced { object } => object.id == id,
            WorkerEvent::TaskDone { subworker, id: task, .. } => task == id && self.runs_on(task, subworker),
            WorkerEvent::Assign { deps, .. } => self.step(event).data_objects[id].state is Remote
                && exists|i: int| 0 <= i < deps.len() && (#[trigger] deps[i]).id == id,
            _ => false,
        }
    }
}

/// A local state has stayed local and a remote one remote; a removed one
/// has stayed removed or was replaced by a remote one.
pub open spec fn state_kept(before: DataStateView, after: DataStateView) -> bool {
    &&& before is Local ==> after is Local
    &&& before is Remote ==> after is Remote
    &&& before is Removed ==> after is Removed || after is Remote
}

} // verus!
