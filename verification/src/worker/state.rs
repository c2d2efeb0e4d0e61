//! The state of a worker and the operations of its reactor.

use crate::common::{SerializationType, SubworkerId, TaskId, WorkerId};
use crate::queue::{
    queue_contains, queue_contents, queue_len, queue_new, queue_pop, queue_push, queue_remove, ReadyQueue,
};
use crate::table::IdTable;
use crate::worker::data::{DataObject, DataObjectState, LocalData, RemoteData};
use crate::worker::error::ReactorError;
use crate::worker::messages::{
    DataDownloadedMsg, DataUnavailableMsg, FromWorkerMessage, StealResponse, WorkerAction,
};
use crate::worker::model::{lemma_pending_count_bound, WorkerView};
use crate::worker::subworker::Subworker;
use crate::worker::task::{Task, TaskState, TaskView};
use vstd::prelude::*;

verus! {

/// The state of a worker: its tasks, data objects and subworkers, the ready
/// queue, and the outbox with the actions that the reactor has decided.
pub struct WorkerState {
    ncpus: u32,
    listen_address: String,
    worker_id: WorkerId,
    worker_addresses: IdTable<String>,
    subworkers: IdTable<Subworker>,
    free_subworkers: Vec<SubworkerId>,
    tasks: IdTable<Task>,
    ready_task_queue: ReadyQueue,
    data_objects: IdTable<DataObject>,
    outbox: Vec<WorkerAction>,
}

impl View for WorkerState {
    type V = WorkerView;

    closed spec fn view(&self) -> WorkerView {
        WorkerView {
            worker_id: self.worker_id,
            ncpus: self.ncpus,
            listen_address: self.listen_address@,
            worker_addresses: self.worker_addresses@.map_values(|address: String| address@),
            tasks: self.tasks@.map_values(|task: Task| task@),
            data_objects: self.data_objects@.map_values(|data: DataObject| data@),
            ready: queue_contents(self.ready_task_queue),
            subworkers: self.subworkers@,
            free_subworkers: self.free_subworkers@,
            outbox: self.outbox@,
        }
    }
}

impl WorkerState {
    /// The tables are sound and no data object lists a consumer twice.
    pub closed spec fn repr_ok(&self) -> bool {
        &&& self.worker_addresses.wf()
        &&& self.subworkers.wf()
        &&& self.tasks.wf()
        &&& self.data_objects.wf()
        &&& forall|id: TaskId| #[trigger]
            self.data_objects@.contains_key(id) ==> self.data_objects@[id].consumers@.no_duplicates()
    }

    /// The state is sound while `pending`, if there is one, is being put
    /// together.
    pub open spec fn wf_with(&self, pending: Option<TaskView>) -> bool {
        self.repr_ok() && self@.inv_with(pending)
    }

    /// The state is sound between two operations.
    pub open spec fn wf(&self) -> bool {
        self.wf_with(None)
    }

    /// A worker without subworkers, tasks and data objects.
    pub fn new(
        worker_id: WorkerId,
        ncpus: u32,
        listen_address: String,
        worker_addresses: IdTable<String>,
    ) -> (state: WorkerState)
        requires
            worker_addresses.wf(),
        ensures
            state.wf(),
            state@ == (WorkerView {
                worker_id,
                ncpus,
                listen_address: listen_address@,
                worker_addresses: worker_addresses@.map_values(|address: String| address@),
                tasks: Map::empty(),
                data_objects: Map::empty(),
                ready: Map::empty(),
                subworkers: Map::empty(),
                free_subworkers: Seq::empty(),
                outbox: Seq::empty(),
            }),
    {
        let state = WorkerState {
            worker_id,
            worker_addresses,
            ncpus,
            listen_address,
            tasks: IdTable::new(),
            subworkers: IdTable::new(),
            free_subworkers: Vec::new(),
            ready_task_queue: queue_new(),
            data_objects: IdTable::new(),
            outbox: Vec::new(),
        };
        assert(state@ =~= (WorkerView {
            worker_id,
            ncpus,
            listen_address: listen_address@,
            worker_addresses: worker_addresses@.map_values(|address: String| address@),
            tasks: Map::empty(),
            data_objects: Map::empty(),
            ready: Map::empty(),
            subworkers: Map::empty(),
            free_subworkers: Seq::empty(),
            outbox: Seq::empty(),
        }));
        state
    }

    /// Declares that `task`, which is being put together, reads the data
    /// object `task_id`. An object that the worker does not know, or has
    /// given up, is entered as remote, with `size` and the candidate
    /// `workers`; a known remote object gets the new candidates. For a remote
    /// object the task waits for one more dependency and a download is asked
    /// for.
    pub fn add_dependancy(
        &mut self,
        task: &mut Task,
        task_id: TaskId,
        size: u64,
        workers: Vec<WorkerId>,
    )
        requires
            old(self).wf_with(Some(old(task)@)),
            !old(task)@.deps.contains(task_id),
        ensures
            final(self).wf_with(Some(final(task)@)),
            final(self)@ == old(self)@.add_dependancy(old(task)@, task_id, size, workers@),
            final(task)@ == old(self)@.task_with_dependancy(old(task)@, task_id),
    {
        let ghost before = self@;
        let ghost task_before = task@;
        proof {
            assert(before.all_tasks(Some(task_before)).contains_key(task_before.id));
            assert(before.task_ok(task_before, task_before.id));
            lemma_pending_count_bound(task_before.deps, before.data_objects);
        }
        let is_remote;
        let mut data;
        match self.data_objects.remove(task_id) {
            None => {
                data = DataObject::new(task_id, size, DataObjectState::Remote(RemoteData { workers }));
                is_remote = true;
            },
            Some(known) => {
                if known.is_removed() {
                    data = DataObject::new(task_id, size, DataObjectState::Remote(RemoteData { workers }));
                    is_remote = true;
                } else {
                    data = known;
                    is_remote = data.is_remote();
                    if is_remote {
                        data.state = DataObjectState::Remote(RemoteData { workers });
                    }
                    proof {
                        assert(before.data_ok(Some(task_before), task_id));
                        if data.consumers@.contains(task.id) {
                            assert(data@.consumers.contains(task.id));
                            assert(before.data_objects[task_id].consumers.contains(task.id));
                        }
                    }
                }
            },
        }
        let ghost consumers_before = data.consumers@;
        data.consumers.push(task.id);
        proof {
            consumers_before.lemma_push_to_set_commute(task.id);
            assert(data@ == before.dep_object(task_before.id, task_id, size, workers@));
        }
        self.data_objects.insert(task_id, data);
        task.deps.push(task_id);
        assert(task.deps.len() == task_before.deps.len() + 1);
        if is_remote {
            let count = task.get_waiting();
            task.state = TaskState::Waiting(count + 1);
            self.outbox.push(WorkerAction::Download { id: task_id, priority: task.priority });
        }
        proof {
            let expected = before.add_dependancy(task_before, task_id, size, workers@);
            assert(self@.data_objects =~= expected.data_objects);
            assert(self@.tasks =~= expected.tasks);
            assert(self@ =~= expected);
            before.lemma_add_dependancy(task_before, task_id, size, workers@);
        }
    }

    /// Takes the task `task_id` off the worker. With `just_finished` the task
    /// has run to its end on a subworker, which is free again afterwards;
    /// without it the task was still waiting. The task leaves the ready queue,
    /// and each of its dependencies loses it as a consumer; a remote
    /// dependency that nobody reads any more is marked as removed.
    pub fn remove_task(&mut self, task_id: TaskId, just_finished: bool)
        requires
            old(self).wf(),
            old(self)@.tasks.contains_key(task_id),
            just_finished == (old(self)@.tasks[task_id].state is Running),
        ensures
            final(self).wf(),
            final(self)@ == old(self)@.remove_task(task_id),
    {
        let ghost before = self@;
        let ghost after = before.remove_task(task_id);
        proof {
            assert(before.all_tasks(None).contains_key(task_id));
            assert(before.task_ok(before.tasks[task_id], task_id));
            before.lemma_remove_task(task_id);
        }
        let removed = self.tasks.remove(task_id);
        let task = removed.unwrap();
        match task.state {
            TaskState::Waiting(count) => {
                if count == 0 {
                    queue_remove(&mut self.ready_task_queue, task_id);
                } else {
                    assert(before.ready.remove(task_id) =~= before.ready);
                }
            },
            TaskState::Running(subworker) => {
                self.subworkers.insert(subworker, Subworker { id: subworker, running_task: None });
                self.free_subworkers.push(subworker);
                assert(before.ready.remove(task_id) =~= before.ready);
            },
            TaskState::Removed => {},
        }
        assert(self@.tasks =~= after.tasks);
        assert(self@.data_objects =~= before.data_objects);
        let mut i: usize = 0;
        while i < task.deps.len()
            invariant
                i <= task.deps@.len(),
                self.repr_ok(),
                before.inv(),
                before.tasks.contains_key(task_id),
                task@ == before.tasks[task_id],
                after == before.remove_task(task_id),
                self@ == (WorkerView { data_objects: self@.data_objects, ..after }),
                self@.data_objects == Map::new(
                    |dep: TaskId| before.data_objects.contains_key(dep),
                    |dep: TaskId|
                        if task.deps@.take(i as int).contains(dep) {
                            WorkerView::release_consumer(before.data_objects[dep], task_id)
                        } else {
                            before.data_objects[dep]
                        },
                ),
            decreases task.deps@.len() - i,
        {
            let dep = task.deps[i];
            let ghost current = self@;
            proof {
                assert(before.all_tasks(None).contains_key(task_id));
                assert(before.task_ok(task@, task_id));
                assert(before.data_objects.contains_key(task.deps@[i as int]));
                assert(!task.deps@.take(i as int).contains(dep)) by {
                    if task.deps@.take(i as int).contains(dep) {
                        let j = choose|j: int|
                            0 <= j < task.deps@.take(i as int).len() && task.deps@.take(i as int)[j]
                                == dep;
                        assert(task.deps@[j] == task.deps@[i as int]);
                    }
                }
                assert(self@.data_objects.contains_key(dep));
                assert(self@.data_objects[dep] == before.data_objects[dep]);
            }
            let ghost table = self.data_objects@;
            let taken = self.data_objects.remove(dep);
            let mut data = taken.unwrap();
            data.remove_consumer(task_id);
            if data.consumers.is_empty() && data.is_remote() {
                data.state = DataObjectState::Removed;
            }
            proof {
                let released = before.data_objects[dep].consumers.remove(task_id);
                if data.consumers@.len() == 0 {
                    assert(data.consumers@.to_set() =~= Set::<TaskId>::empty());
                } else {
                    assert(data.consumers@.to_set().contains(data.consumers@[0]));
                    assert(!(released =~= Set::<TaskId>::empty()));
                }
                assert(data@ == WorkerView::release_consumer(before.data_objects[dep], task_id));
            }
            self.data_objects.insert(dep, data);
            proof {
                let next = task.deps@.take(i + 1);
                assert forall|d: TaskId| next.contains(d) == (task.deps@.take(i as int).contains(d) || d
                    == dep) by {
                    if next.contains(d) {
                        let j = choose|j: int| 0 <= j < next.len() && next[j] == d;
                        if j < i {
                            assert(task.deps@.take(i as int)[j] == d);
                        }
                    }
                    if task.deps@.take(i as int).contains(d) {
                        let j = choose|j: int|
                            0 <= j < task.deps@.take(i as int).len() && task.deps@.take(i as int)[j] == d;
                        assert(next[j] == d);
                    }
                    if d == dep {
                        assert(next[i as int] == d);
                    }
                }
                assert(self.data_objects@ =~= table.insert(dep, data));
                assert(self@.data_objects =~= current.data_objects.insert(dep, data@));
                assert(self@.data_objects =~= Map::new(
                    |dep: TaskId| before.data_objects.contains_key(dep),
                    |dep: TaskId|
                        if next.contains(dep) {
                            WorkerView::release_consumer(before.data_objects[dep], task_id)
                        } else {
                            before.data_objects[dep]
                        },
                ));
                assert(self@ =~= (WorkerView { data_objects: self@.data_objects, ..after }));
            }
            i += 1;
        }
        proof {
            assert(task.deps@.take(i as int) =~= task.deps@);
            assert(self@.data_objects =~= after.data_objects);
            assert(self@ =~= after);
        }
    }

    /// Starts ready tasks: while a subworker is free and a task is ready, the
    /// ready task with the smallest key is handed to the subworker on top of
    /// the stack. A running subworker is never interrupted.
    pub fn try_start_tasks(&mut self)
        requires
            old(self).wf(),
        ensures
            final(self).wf(),
            final(self)@ == old(self)@.try_start_tasks(),
    {
        loop
            invariant
                self.wf(),
                self@.try_start_tasks() == old(self)@.try_start_tasks(),
            decreases self.free_subworkers@.len(),
        {
            if self.free_subworkers.len() == 0 {
                return ;
            }
            let ghost current = self@;
            match queue_pop(&mut self.ready_task_queue) {
                None => {
                    assert(!current.has_ready());
                    assert(self@ =~= current);
                    return ;
                },
                Some((id, key)) => {
                    proof {
                        assert(current.is_best(id));
                        current.lemma_best_unique(id, current.best_ready());
                        current.lemma_start_task(id);
                        assert(current.all_tasks(None).contains_key(id));
                    }
                    let popped = self.free_subworkers.pop();
                    let subworker = popped.unwrap();
                    let ghost table = self.tasks@;
                    let taken = self.tasks.remove(id);
                    let mut task = taken.unwrap();
                    task.state = TaskState::Running(subworker);
                    self.tasks.insert(id, task);
                    self.subworkers.insert(subworker, Subworker { id: subworker, running_task: Some(id) });
                    self.outbox.push(WorkerAction::StartTask { subworker, task: id });
                    proof {
                        let expected = current.start_task(id);
                        assert(self.tasks@ =~= table.insert(id, task));
                        assert(self@.tasks =~= expected.tasks);
                        assert(self@.data_objects =~= expected.data_objects);
                        assert(self@.free_subworkers =~= expected.free_subworkers);
                        assert(self@ =~= expected);
                    }
                },
            }
        }
    }

    /// Adds a task that waits for nothing: the task gets known and queued,
    /// and ready tasks are started.
    pub fn add_ready_task(&mut self, task: Task)
        requires
            old(self).wf_with(Some(task@)),
            task@.is_ready(),
        ensures
            final(self).wf(),
            final(self)@ == old(self)@.add_ready_task(task@),
    {
        let ghost before = self@;
        proof {
            before.lemma_insert_task(task@);
        }
        let id = task.id;
        let key = task.queue_key();
        self.tasks.insert(id, task);
        queue_push(&mut self.ready_task_queue, id, key);
        proof {
            let expected = before.insert_task(task@);
            assert(self@.tasks =~= expected.tasks);
            assert(self@.data_objects =~= expected.data_objects);
            assert(self@ =~= expected);
        }
        self.try_start_tasks();
    }

    /// Adds the task that was being put together. A task that waits for
    /// nothing is queued and ready tasks are started; a task that waits for
    /// remote data only gets known.
    pub fn add_task(&mut self, task: Task)
        requires
            old(self).wf_with(Some(task@)),
        ensures
            final(self).wf(),
            final(self)@ == old(self)@.add_task(task@),
    {
        if task.is_ready() {
            self.add_ready_task(task);
        } else {
            let ghost before = self@;
            proof {
                before.lemma_insert_task(task@);
            }
            let id = task.id;
            self.tasks.insert(id, task);
            proof {
                let expected = before.insert_task(task@);
                assert(self@.tasks =~= expected.tasks);
                assert(self@.data_objects =~= expected.data_objects);
                assert(self@ =~= expected);
            }
        }
    }

    /// Gives the remote data object `id` its bytes and `size`. Every task
    /// that reads it waits for one dependency less; those that wait for
    /// nothing any more are queued.
    fn make_local(&mut self, id: TaskId, size: u64, data: Vec<u8>, serializer: SerializationType)
        requires
            old(self).wf(),
            old(self)@.data_objects.contains_key(id),
            old(self)@.data_objects[id].state is Remote,
        ensures
            final(self).wf(),
            final(self)@ == old(self)@.made_local(id, size, data@, serializer),
    {
        let ghost before = self@;
        proof {
            before.lemma_made_local(id, size, data@, serializer);
        }
        let ghost bytes = data@;
        let taken = self.data_objects.remove(id);
        let mut object = taken.unwrap();
        object.size = size;
        object.state = DataObjectState::Local(LocalData { serializer, bytes: data });
        let ghost target = before.made_local(id, size, bytes, serializer);
        assert(self@.tasks =~= before.tasks);
        assert(self@.data_objects =~= before.data_objects.remove(id));
        let mut i: usize = 0;
        while i < object.consumers.len()
            invariant
                i <= object.consumers@.len(),
                self.repr_ok(),
                before.inv(),
                before.data_objects.contains_key(id),
                before.data_objects[id].state is Remote,
                object.consumers@.no_duplicates(),
                object@ == target.data_objects[id],
                target == before.made_local(id, size, bytes, serializer),
                self@ == (WorkerView {
                    tasks: self@.tasks,
                    ready: self@.ready,
                    data_objects: before.data_objects.remove(id),
                    ..target
                }),
                self@.tasks == Map::new(
                    |task: TaskId| before.tasks.contains_key(task),
                    |task: TaskId|
                        if object.consumers@.take(i as int).contains(task) {
                            before.tasks[task].dependency_arrived()
                        } else {
                            before.tasks[task]
                        },
                ),
                self@.ready == Map::new(
                    |task: TaskId|
                        before.ready.contains_key(task) || (object.consumers@.take(i as int).contains(
                            task,
                        ) && before.tasks[task].dependency_arrived().is_ready()),
                    |task: TaskId| before.tasks[task].queue_key(),
                ),
            decreases object.consumers@.len() - i,
        {
            let consumer = object.consumers[i];
            let ghost current = self@;
            let ghost done = object.consumers@.take(i as int);
            proof {
                assert(object@.consumers.contains(object.consumers@[i as int]));
                before.lemma_consumer_waits(id, consumer);
                assert(!done.contains(consumer)) by {
                    if done.contains(consumer) {
                        let j = choose|j: int| 0 <= j < done.len() && done[j] == consumer;
                        assert(object.consumers@[j] == object.consumers@[i as int]);
                    }
                }
                assert(current.tasks.contains_key(consumer));
                assert(current.tasks[consumer] == before.tasks[consumer]);
            }
            let ghost table = self.tasks@;
            let taken = self.tasks.remove(consumer);
            let mut task = taken.unwrap();
            let count = task.get_waiting();
            task.state = TaskState::Waiting(count - 1);
            if count - 1 == 0 {
                queue_push(&mut self.ready_task_queue, consumer, task.queue_key());
            }
            assert(task@ == before.tasks[consumer].dependency_arrived());
            self.tasks.insert(consumer, task);
            proof {
                let next = object.consumers@.take(i + 1);
                assert forall|t: TaskId| next.contains(t) == (done.contains(t) || t == consumer) by {
                    if next.contains(t) {
                        let j = choose|j: int| 0 <= j < next.len() && next[j] == t;
                        if j < i {
                            assert(done[j] == t);
                        }
                    }
                    if done.contains(t) {
                        let j = choose|j: int| 0 <= j < done.len() && done[j] == t;
                        assert(next[j] == t);
                    }
                    if t == consumer {
                        assert(next[i as int] == t);
                    }
                }
                assert(self.tasks@ =~= table.insert(consumer, task));
                assert(self@.tasks =~= current.tasks.insert(consumer, task@));
                assert(self@.tasks =~= Map::new(
                    |task: TaskId| before.tasks.contains_key(task),
                    |task: TaskId|
                        if next.contains(task) {
                            before.tasks[task].dependency_arrived()
                        } else {
                            before.tasks[task]
                        },
                ));
                assert(self@.ready =~= Map::new(
                    |task: TaskId|
                        before.ready.contains_key(task) || (next.contains(task)
                            && before.tasks[task].dependency_arrived().is_ready()),
                    |task: TaskId| before.tasks[task].queue_key(),
                ));
                assert(self@.data_objects =~= before.data_objects.remove(id));
                assert(self@ =~= (WorkerView {
                    tasks: self@.tasks,
                    ready: self@.ready,
                    data_objects: before.data_objects.remove(id),
                    ..target
                }));
            }
            i += 1;
        }
        proof {
            assert(object.consumers@.take(i as int) =~= object.consumers@);
            assert(self@.tasks =~= target.tasks);
            assert(self@.ready =~= target.ready) by {
                assert forall|task: TaskId| #[trigger] self@.ready.contains_key(task) implies target.ready.contains_key(
                    task,
                ) by {
                    if before.ready.contains_key(task) {
                        assert(before.tasks.contains_key(task));
                        if before.data_objects[id].consumers.contains(task) {
                            before.lemma_consumer_waits(id, task);
                        }
                    } else {
                        before.lemma_consumer_waits(id, task);
                    }
                }
                assert forall|task: TaskId| #[trigger] target.ready.contains_key(task) implies self@.ready.contains_key(
                    task,
                ) by {
                    if !before.data_objects[id].consumers.contains(task) {
                        assert(before.tasks[task].is_ready());
                    } else {
                        assert(object.consumers@.contains(task));
                    }
                }
            }
        }
        let ghost mapped = self@.data_objects;
        let ghost arrived = object@;
        self.data_objects.insert(id, object);
        proof {
            assert(self@.data_objects =~= mapped.insert(id, arrived));
            assert(self@.data_objects =~= target.data_objects);
            assert(self@ =~= target);
        }
    }

    /// Takes in the result of a download of the data object `id`. The bytes
    /// are dropped where nothing waits for them: the worker does not know
    /// the object, the object is removed, or its bytes are here already,
    /// made on this worker in the meantime. Otherwise the object is local
    /// from now on, the scheduler is told, every consumer waits for one
    /// dependency less, those that wait for nothing any more are queued,
    /// and ready tasks are started.
    pub fn on_data_downloaded(&mut self, id: TaskId, data: Vec<u8>, serializer: SerializationType)
        requires
            old(self).wf(),
        ensures
            final(self).wf(),
            final(self)@ == old(self)@.on_data_downloaded(id, data@, serializer),
    {
        let ghost before = self@;
        let ghost bytes = data@;
        let size = match self.data_objects.get(id) {
            Some(known) => {
                if !known.is_remote() {
                    return ;
                }
                known.size
            },
            None => {
                return ;
            },
        };
        self.make_local(id, size, data, serializer);
        self.outbox.push(
            WorkerAction::SendToServer(FromWorkerMessage::DataDownloaded(DataDownloadedMsg { id })),
        );
        proof {
            before.lemma_data_arrived(id, bytes, serializer);
            assert(self@.data_objects =~= before.data_arrived(id, bytes, serializer).data_objects);
            assert(self@ =~= before.data_arrived(id, bytes, serializer));
        }
        self.try_start_tasks();
    }

    /// Answers a request of the scheduler to give up the task `task_id`. A
    /// task that waits leaves the worker and the answer is `Success`; a task
    /// on a subworker stays and the answer is `Running`; for a task that is
    /// not here the answer is `NotHere`.
    pub fn steal_task(&mut self, task_id: TaskId) -> (response: StealResponse)
        requires
            old(self).wf(),
        ensures
            final(self).wf(),
            response == old(self)@.steal_response(task_id),
            final(self)@ == old(self)@.steal_task(task_id),
    {
        match self.tasks.get(task_id) {
            None => {
                return StealResponse::NotHere;
            },
            Some(task) => match task.state {
                TaskState::Waiting(_) => {},
                TaskState::Running(_) => {
                    return StealResponse::Running;
                },
                TaskState::Removed => {
                    return StealResponse::NotHere;
                },
            },
        }
        self.remove_task(task_id, false);
        StealResponse::Success
    }

    /// Gives the worker its subworkers, all of them free. The last one of
    /// `subworkers` is the first to get a task.
    pub fn set_subworkers(&mut self, subworkers: Vec<Subworker>)
        requires
            old(self).wf(),
            old(self)@.subworkers == Map::<SubworkerId, Subworker>::empty(),
            old(self)@.free_subworkers.len() == 0,
            WorkerView::fresh_subworkers(subworkers@),
        ensures
            final(self).wf(),
            final(self)@ == old(self)@.set_subworkers(subworkers@),
    {
        let ghost before = self@;
        proof {
            before.lemma_set_subworkers(subworkers@);
        }
        let mut i: usize = 0;
        while i < subworkers.len()
            invariant
                i <= subworkers@.len(),
                self.repr_ok(),
                WorkerView::fresh_subworkers(subworkers@),
                self@ == (WorkerView {
                    subworkers: Map::new(
                        |id: SubworkerId|
                            exists|j: int| 0 <= j < i && (#[trigger] subworkers@[j]).id == id,
                        |id: SubworkerId| Subworker { id, running_task: None },
                    ),
                    free_subworkers: Seq::new(i as nat, |j: int| subworkers@[j].id),
                    ..before
                }),
            decreases subworkers@.len() - i,
        {
            let subworker = subworkers[i];
            let ghost current = self@;
            self.subworkers.insert(subworker.id, subworker);
            self.free_subworkers.push(subworker.id);
            proof {
                assert(subworker == (Subworker { id: subworker.id, running_task: None }));
                let next = Map::new(
                    |id: SubworkerId|
                        exists|j: int| 0 <= j < i + 1 && (#[trigger] subworkers@[j]).id == id,
                    |id: SubworkerId| Subworker { id, running_task: None },
                );
                assert forall|id: SubworkerId| #[trigger]
                    next.contains_key(id) == self@.subworkers.contains_key(id) by {
                    if next.contains_key(id) {
                        let j = choose|j: int| 0 <= j < i + 1 && (#[trigger] subworkers@[j]).id == id;
                        if j < i {
                            assert(current.subworkers.contains_key(id));
                        }
                    }
                    if id == subworker.id {
                        assert(subworkers@[i as int].id == id);
                    }
                    if current.subworkers.contains_key(id) {
                        let j = choose|j: int| 0 <= j < i && (#[trigger] subworkers@[j]).id == id;
                        assert(subworkers@[j].id == id);
                    }
                }
                assert(self@.subworkers =~= next);
                assert(self@.free_subworkers =~= Seq::new((i + 1) as nat, |j: int| subworkers@[j].id));
                assert(self@.tasks =~= current.tasks);
                assert(self@.data_objects =~= current.data_objects);
                assert(self@ =~= (WorkerView {
                    subworkers: self@.subworkers,
                    free_subworkers: self@.free_subworkers,
                    ..before
                }));
            }
            i += 1;
        }
        proof {
            let expected = before.set_subworkers(subworkers@);
            assert(self@.subworkers =~= expected.subworkers);
            assert(self@.free_subworkers =~= expected.free_subworkers);
        }
    }

    /// Removes the data object `task_id` at the request of the scheduler.
    /// An object that local tasks still read is not removed: the request is
    /// refused and nothing changes. An object that the worker does not have
    /// needs no removal.
    pub fn remove_data(&mut self, task_id: TaskId) -> (result: Result<(), ReactorError>)
        requires
            old(self).wf(),
        ensures
            final(self).wf(),
            final(self)@ == old(self)@.remove_data(task_id),
            result == if old(self)@.data_still_needed(task_id) {
                Err::<(), ReactorError>(ReactorError::DataStillNeeded)
            } else {
                Ok(())
            },
    {
        let ghost before = self@;
        proof {
            before.lemma_remove_data(task_id);
        }
        let needed = match self.data_objects.get(task_id) {
            Some(data) => {
                proof {
                    if data.consumers@.len() > 0 {
                        assert(data@.consumers.contains(data.consumers@[0]));
                    }
                }
                !data.consumers.is_empty()
            },
            None => false,
        };
        if needed {
            return Err(ReactorError::DataStillNeeded);
        }
        self.data_objects.remove(task_id);
        proof {
            assert(self@.data_objects =~= before.data_objects.remove(task_id));
            assert(self@.tasks =~= before.tasks);
            assert(self@ =~= before.remove_data(task_id));
        }
        Ok(())
    }

    /// Enters a data object that was made on this worker, such as the output
    /// of a task that has run here, with its bytes. It takes the place of the
    /// object known under its identifier, and the tasks that read that one
    /// read it from now on; readers that `data` itself lists are not taken
    /// over. Where the bytes were still to be fetched, every reader waits for
    /// one dependency less, those that wait for nothing any more are queued,
    /// and ready tasks are started.
    pub fn add_data_object(&mut self, data: DataObject)
        requires
            old(self).wf(),
            data@.state is Local,
        ensures
            final(self).wf(),
            final(self)@ == old(self)@.add_data_object(data@),
    {
        let ghost before = self@;
        let ghost object = data@;
        proof {
            before.lemma_add_data_object(object);
        }
        let id = data.id;
        let remote = match self.data_objects.get(id) {
            Some(known) => known.is_remote(),
            None => false,
        };
        if remote {
            let size = data.size;
            match data.state {
                DataObjectState::Local(local) => {
                    proof {
                        before.lemma_entered_is_made_local(object, local.bytes@, local.serializer);
                    }
                    self.make_local(id, size, local.bytes, local.serializer);
                    self.try_start_tasks();
                },
                _ => {},
            }
        } else {
            let mut data = data;
            match self.data_objects.remove(id) {
                Some(known) => {
                    assert(known@ == before.data_objects[id]);
                    data.consumers = known.consumers;
                },
                None => {
                    data.consumers = Vec::new();
                    assert(data.consumers@.to_set() =~= Set::empty());
                },
            }
            assert(data@.consumers =~= before.entered(object).consumers);
            assert(data@ == before.entered(object));
            self.data_objects.insert(id, data);
            proof {
                assert(self@.data_objects =~= before.data_objects.insert(id, before.entered(object)));
                assert(self@.tasks =~= before.tasks);
                assert(self@ =~= before.add_data_object(object));
            }
        }
    }

    /// Puts a message to the scheduler into the outbox.
    pub fn send_message_to_server(&mut self, message: FromWorkerMessage)
        requires
            old(self).wf(),
        ensures
            final(self).wf(),
            final(self)@ == old(self)@.send_message_to_server(message),
    {
        let ghost before = self@;
        proof {
            before.lemma_outbox(before.outbox.push(WorkerAction::SendToServer(message)));
        }
        self.outbox.push(WorkerAction::SendToServer(message));
        proof {
            assert(self@.data_objects =~= before.data_objects);
            assert(self@.tasks =~= before.tasks);
            assert(self@ =~= before.send_message_to_server(message));
        }
    }

    /// Takes in that every candidate has failed to deliver the data object
    /// `id`. If the object is still waited for, the scheduler is told that
    /// it is unavailable; the tasks that read it go on waiting.
    pub fn on_data_unavailable(&mut self, id: TaskId)
        requires
            old(self).wf(),
        ensures
            final(self).wf(),
            final(self)@ == old(self)@.on_data_unavailable(id),
    {
        let remote = match self.data_objects.get(id) {
            Some(known) => known.is_remote(),
            None => false,
        };
        if remote {
            self.send_message_to_server(
                FromWorkerMessage::DataUnavailable(DataUnavailableMsg { id }),
            );
        }
    }

    /// Empties the outbox and returns the actions that were in it, in the
    /// order in which they were decided.
    pub fn take_actions(&mut self) -> (actions: Vec<WorkerAction>)
        requires
            old(self).wf(),
        ensures
            final(self).wf(),
            actions@ == old(self)@.outbox,
            final(self)@ == old(self)@.without_actions(),
    {
        let ghost before = self@;
        proof {
            before.lemma_outbox(Seq::empty());
        }
        let mut actions: Vec<WorkerAction> = Vec::new();
        std::mem::swap(&mut actions, &mut self.outbox);
        proof {
            assert(self@.data_objects =~= before.data_objects);
            assert(self@.tasks =~= before.tasks);
            assert(self@ =~= before.without_actions());
        }
        actions
    }

    /// The identifier of the worker.
    pub fn worker_id(&self) -> (id: WorkerId)
        ensures
            id == self@.worker_id,
    {
        self.worker_id
    }

    /// The number of cores of the worker.
    pub fn ncpus(&self) -> (ncpus: u32)
        ensures
            ncpus == self@.ncpus,
    {
        self.ncpus
    }

    /// Where other workers reach this one.
    pub fn listen_address(&self) -> (address: &String)
        ensures
            address@ == self@.listen_address,
    {
        &self.listen_address
    }

    /// The address of another worker, if it is known.
    pub fn worker_address(&self, worker: WorkerId) -> (address: Option<&String>)
        requires
            self.wf(),
        ensures
            match address {
                Some(found) => self@.worker_addresses.contains_key(worker) && found@
                    == self@.worker_addresses[worker],
                None => !self@.worker_addresses.contains_key(worker),
            },
    {
        self.worker_addresses.get(worker)
    }

    /// The task `id`, if the worker has it.
    pub fn task(&self, id: TaskId) -> (task: Option<&Task>)
        requires
            self.wf(),
        ensures
            match task {
                Some(found) => self@.tasks.contains_key(id) && found@ == self@.tasks[id],
                None => !self@.tasks.contains_key(id),
            },
    {
        self.tasks.get(id)
    }

    /// The data object `id`, if the worker knows it.
    pub fn data_object(&self, id: TaskId) -> (data: Option<&DataObject>)
        requires
            self.wf(),
        ensures
            match data {
                Some(found) => self@.data_objects.contains_key(id) && found@ == self@.data_objects[id],
                None => !self@.data_objects.contains_key(id),
            },
    {
        self.data_objects.get(id)
    }

    /// The subworker `id`, if the worker has it.
    pub fn subworker(&self, id: SubworkerId) -> (subworker: Option<Subworker>)
        requires
            self.wf(),
        ensures
            subworker == if self@.subworkers.contains_key(id) {
                Some(self@.subworkers[id])
            } else {
                None
            },
    {
        match self.subworkers.get(id) {
            Some(found) => Some(*found),
            None => None,
        }
    }

    /// The number of subworkers that run nothing.
    pub fn free_subworker_count(&self) -> (count: usize)
        ensures
            count == self@.free_subworkers.len(),
    {
        self.free_subworkers.len()
    }

    /// The number of subworkers, free or busy.
    pub fn subworker_count(&self) -> (count: usize)
        requires
            self.wf(),
        ensures
            self@.subworkers.dom().finite(),
            count == self@.subworkers.len(),
    {
        self.subworkers.len()
    }

    /// The number of tasks on the worker, waiting or running.
    pub fn task_count(&self) -> (count: usize)
        requires
            self.wf(),
        ensures
            self@.tasks.dom().finite(),
            count == self@.tasks.len(),
    {
        assert(self@.tasks.dom() =~= self.tasks@.dom());
        self.tasks.len()
    }

    /// The number of data objects that the worker knows.
    pub fn data_object_count(&self) -> (count: usize)
        requires
            self.wf(),
        ensures
            self@.data_objects.dom().finite(),
            count == self@.data_objects.len(),
    {
        assert(self@.data_objects.dom() =~= self.data_objects@.dom());
        self.data_objects.len()
    }

    /// The number of tasks that wait for a free subworker and for nothing
    /// else.
    pub fn ready_count(&self) -> (count: usize)
        requires
            self.wf(),
        ensures
            self@.ready.dom().finite(),
            count == self@.ready.len(),
    {
        proof {
            assert(self@.ready.dom().subset_of(self@.tasks.dom()));
            vstd::set_lib::lemma_len_subset(self@.ready.dom(), self@.tasks.dom());
        }
        queue_len(&self.ready_task_queue)
    }

    /// Tells whether the task `id` is in the ready queue: it is on the
    /// worker and waits for no dependency.
    pub fn is_queued(&self, id: TaskId) -> (queued: bool)
        requires
            self.wf(),
        ensures
            queued == self@.ready.contains_key(id),
            queued == (self@.tasks.contains_key(id) && self@.tasks[id].is_ready()),
    {
        assert(self@.ready_ok());
        assert(self@.ready.contains_key(id) <==> self@.tasks.contains_key(id) && self@.tasks[id].is_ready());
        queue_contains(&self.ready_task_queue, id)
    }
}

} // verus!
