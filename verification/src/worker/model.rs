//! The reactor as a mathematical state machine.
//!
//! [`WorkerView`] is what a worker state stands for; the functions of this
//! module say what each operation of the reactor does to it, and
//! [`WorkerView::inv`] says which views are consistent.

use crate::common::{SerializationType, SubworkerId, TaskId, WorkerId};
use crate::queue::{key_le, QueueKey};
use crate::worker::data::{DataObjectView, DataStateView};
use crate::worker::messages::{
    DataDownloadedMsg, DataUnavailableMsg, FromWorkerMessage, StealResponse, WorkerAction,
};
use crate::worker::subworker::Subworker;
use crate::worker::task::{TaskState, TaskView};
use vstd::prelude::*;

verus! {

/// What the state of a worker stands for.
#[verifier::ext_equal]
pub struct WorkerView {
    pub worker_id: WorkerId,
    pub ncpus: u32,
    pub listen_address: Seq<char>,
    /// The addresses of the other workers.
    pub worker_addresses: Map<WorkerId, Seq<char>>,
    pub tasks: Map<TaskId, TaskView>,
    pub data_objects: Map<TaskId, DataObjectView>,
    /// The ready queue: identifiers with the keys they are queued under.
    pub ready: Map<TaskId, QueueKey>,
    pub subworkers: Map<SubworkerId, Subworker>,
    /// The stack of free subworkers; the last one is taken first.
    pub free_subworkers: Seq<SubworkerId>,
    /// The actions decided so far and not yet taken away.
    pub outbox: Seq<WorkerAction>,
}

/// The data object `dep` is here with its bytes.
pub open spec fn is_local(data: Map<TaskId, DataObjectView>, dep: TaskId) -> bool {
    data.contains_key(dep) && data[dep].state is Local
}

/// How many of `deps` are not local.
pub open spec fn pending_count(deps: Seq<TaskId>, data: Map<TaskId, DataObjectView>) -> nat
    decreases deps.len(),
{
    if deps.len() == 0 {
        0
    } else {
        pending_count(deps.drop_last(), data) + if is_local(data, deps.last()) {
            0nat
        } else {
            1nat
        }
    }
}

/// A new last dependency adds one to the count unless it is local.
pub proof fn lemma_pending_count_push(deps: Seq<TaskId>, dep: TaskId, data: Map<TaskId, DataObjectView>)
    ensures
        pending_count(deps.push(dep), data) == pending_count(deps, data) + if is_local(data, dep) {
            0nat
        } else {
            1nat
        },
{
    assert(deps.push(dep).drop_last() =~= deps);
}

/// The count is at most the number of dependencies, and it is zero exactly
/// when all of them are local.
pub proof fn lemma_pending_count_bound(deps: Seq<TaskId>, data: Map<TaskId, DataObjectView>)
    ensures
        pending_count(deps, data) <= deps.len(),
        pending_count(deps, data) == 0 <==> forall|i: int|
            0 <= i < deps.len() ==> is_local(data, #[trigger] deps[i]),
    decreases deps.len(),
{
    if deps.len() > 0 {
        lemma_pending_count_bound(deps.drop_last(), data);
        if pending_count(deps, data) == 0 {
            assert forall|i: int| 0 <= i < deps.len() implies is_local(data, #[trigger] deps[i]) by {
                if i < deps.len() - 1 {
                    assert(deps.drop_last()[i] == deps[i]);
                }
            }
        } else {
            if forall|i: int| 0 <= i < deps.len() ==> is_local(data, #[trigger] deps[i]) {
                assert forall|i: int| 0 <= i < deps.drop_last().len() implies is_local(
                    data,
                    #[trigger] deps.drop_last()[i],
                ) by {
                    assert(deps.drop_last()[i] == deps[i]);
                }
                assert(is_local(data, deps[deps.len() - 1]));
            }
        }
    }
}

/// The count depends only on which of `deps` are local.
pub proof fn lemma_pending_count_same(
    deps: Seq<TaskId>,
    before: Map<TaskId, DataObjectView>,
    after: Map<TaskId, DataObjectView>,
)
    requires
        forall|i: int| 0 <= i < deps.len() ==> is_local(before, #[trigger] deps[i]) == is_local(after, deps[i]),
    ensures
        pending_count(deps, before) == pending_count(deps, after),
    decreases deps.len(),
{
    if deps.len() > 0 {
        assert forall|i: int| 0 <= i < deps.drop_last().len() implies is_local(
            before,
            #[trigger] deps.drop_last()[i],
        ) == is_local(after, deps.drop_last()[i]) by {
            assert(deps.drop_last()[i] == deps[i]);
        }
        lemma_pending_count_same(deps.drop_last(), before, after);
        assert(deps.last() == deps[deps.len() - 1]);
    }
}

/// When one dependency becomes local and the others stay as they are, the
/// count drops by one.
pub proof fn lemma_pending_count_arrival(
    deps: Seq<TaskId>,
    dep: TaskId,
    before: Map<TaskId, DataObjectView>,
    after: Map<TaskId, DataObjectView>,
)
    requires
        deps.no_duplicates(),
        deps.contains(dep),
        !is_local(before, dep),
        is_local(after, dep),
        forall|i: int|
            0 <= i < deps.len() && deps[i] != dep ==> is_local(before, #[trigger] deps[i]) == is_local(
                after,
                deps[i],
            ),
    ensures
        pending_count(deps, before) == pending_count(deps, after) + 1,
    decreases deps.len(),
{
    let rest = deps.drop_last();
    assert(deps.len() > 0);
    assert(deps.last() == deps[deps.len() - 1]);
    assert forall|i: int| 0 <= i < rest.len() implies rest[i] == deps[i] by {}
    if deps.last() == dep {
        assert forall|i: int| 0 <= i < rest.len() implies is_local(before, #[trigger] rest[i]) == is_local(
            after,
            rest[i],
        ) by {
            assert(rest[i] == deps[i]);
            assert(deps[i] != deps[deps.len() - 1]);
        }
        lemma_pending_count_same(rest, before, after);
    } else {
        let k = choose|k: int| 0 <= k < deps.len() && deps[k] == dep;
        assert(rest[k] == dep);
        assert(rest.contains(dep));
        assert(rest.no_duplicates());
        assert forall|i: int| 0 <= i < rest.len() && rest[i] != dep implies is_local(
            before,
            #[trigger] rest[i],
        ) == is_local(after, rest[i]) by {
            assert(rest[i] == deps[i]);
        }
        lemma_pending_count_arrival(rest, dep, before, after);
    }
}

impl TaskView {
    /// The number the task waits for; zero for a task that does not wait.
    pub open spec fn waiting(self) -> nat {
        match self.state {
            TaskState::Waiting(n) => n as nat,
            _ => 0,
        }
    }
}

impl TaskView {
    /// The task after one of the dependencies it waited for has become
    /// local.
    pub open spec fn dependency_arrived(self) -> TaskView {
        TaskView {
            state: match self.state {
                TaskState::Waiting(n) => TaskState::Waiting((n - 1) as usize),
                other => other,
            },
            ..self
        }
    }
}

/// The tasks among `tasks` that wait for nothing, each with its key.
pub open spec fn ready_of(tasks: Map<TaskId, TaskView>) -> Map<TaskId, QueueKey> {
    Map::new(
        |id: TaskId| tasks.contains_key(id) && tasks[id].is_ready(),
        |id: TaskId| tasks[id].queue_key(),
    )
}

impl WorkerView {
    /// The tasks of the worker together with a task that is being put
    /// together and has not been added yet.
    pub open spec fn all_tasks(self, pending: Option<TaskView>) -> Map<TaskId, TaskView> {
        match pending {
            Some(task) => self.tasks.insert(task.id, task),
            None => self.tasks,
        }
    }

    /// A task is consistent with the data objects: it is stored under its
    /// own identifier, every dependency is a data object that knows the task
    /// as a consumer, a waiting task waits for exactly the dependencies that
    /// are not local, and a running task has all of them local.
    pub open spec fn task_ok(self, task: TaskView, id: TaskId) -> bool {
        &&& task.id == id
        &&& !(task.state is Removed)
        &&& task.deps.no_duplicates()
        &&& forall|i: int|
            0 <= i < task.deps.len() ==> {
                &&& self.data_objects.contains_key(#[trigger] task.deps[i])
                &&& self.data_objects[task.deps[i]].consumers.contains(id)
            }
        &&& task.state is Waiting ==> task.waiting() == pending_count(task.deps, self.data_objects)
        &&& task.state is Running ==> pending_count(task.deps, self.data_objects) == 0
    }

    /// A data object is consistent with the tasks: it is stored under its own
    /// identifier, its consumers are tasks that depend on it, and while it
    /// has a consumer it is not removed.
    pub open spec fn data_ok(self, pending: Option<TaskView>, dep: TaskId) -> bool {
        &&& self.data_objects[dep].id == dep
        &&& forall|consumer: TaskId| #[trigger]
            self.data_objects[dep].consumers.contains(consumer) ==> {
                &&& self.all_tasks(pending).contains_key(consumer)
                &&& self.all_tasks(pending)[consumer].deps.contains(dep)
                &&& !(self.data_objects[dep].state is Removed)
            }
    }

    /// The ready queue holds exactly the tasks that wait for nothing, each
    /// under its key.
    pub open spec fn ready_ok(self) -> bool {
        forall|id: TaskId|
            {
                &&& #[trigger] self.ready.contains_key(id) <==> self.tasks.contains_key(id)
                    && self.tasks[id].is_ready()
                &&& self.ready.contains_key(id) ==> self.ready[id] == self.tasks[id].queue_key()
            }
    }

    /// Free subworkers run nothing and are on the stack once; a busy
    /// subworker and its task name each other.
    pub open spec fn subworkers_ok(self) -> bool {
        &&& self.free_subworkers.no_duplicates()
        &&& forall|i: int|
            0 <= i < self.free_subworkers.len() ==> {
                &&& self.subworkers.contains_key(#[trigger] self.free_subworkers[i])
                &&& self.subworkers[self.free_subworkers[i]].running_task is None
            }
        &&& forall|s: SubworkerId| #[trigger]
            self.subworkers.contains_key(s) ==> {
                &&& self.subworkers[s].id == s
                &&& match self.subworkers[s].running_task {
                    Some(task) => self.tasks.contains_key(task) && self.tasks[task].state
                        == TaskState::Running(s),
                    None => self.free_subworkers.contains(s),
                }
            }
        &&& forall|id: TaskId| #[trigger]
            self.tasks.contains_key(id) ==> (self.tasks[id].state matches TaskState::Running(s) ==> {
                &&& self.subworkers.contains_key(s)
                &&& self.subworkers[s].running_task == Some(id)
            })
    }

    /// Consistency of a worker while `pending`, if there is one, is being
    /// put together: the task is not among the worker's tasks yet, but the
    /// data objects already know it.
    pub open spec fn inv_with(self, pending: Option<TaskView>) -> bool {
        &&& pending matches Some(task) ==> !self.tasks.contains_key(task.id) && task.state is Waiting
        &&& self.tasks.dom().finite()
        &&& forall|id: TaskId| #[trigger]
            self.all_tasks(pending).contains_key(id) ==> self.task_ok(self.all_tasks(pending)[id], id)
        &&& forall|dep: TaskId| #[trigger]
            self.data_objects.contains_key(dep) ==> self.data_ok(pending, dep)
        &&& self.ready_ok()
        &&& self.subworkers_ok()
    }

    /// Consistency of a worker between two operations.
    pub open spec fn inv(self) -> bool {
        self.inv_with(None)
    }

    /// A task without dependencies that the worker does not know can start
    /// to be put together.
    pub proof fn lemma_begin_task(self, task: TaskView)
        requires
            self.inv(),
            !self.tasks.contains_key(task.id),
            task.deps.len() == 0,
            task.state == TaskState::Waiting(0),
        ensures
            self.inv_with(Some(task)),
    {
        let all = self.all_tasks(Some(task));
        assert forall|id: TaskId| #[trigger] all.contains_key(id) implies self.task_ok(all[id], id) by {
            if id != task.id {
                assert(self.all_tasks(None).contains_key(id));
            }
        }
        assert forall|dep: TaskId| #[trigger] self.data_objects.contains_key(dep) implies self.data_ok(
            Some(task),
            dep,
        ) by {
            assert(self.data_ok(None, dep));
            assert forall|consumer: TaskId| #[trigger]
                self.data_objects[dep].consumers.contains(consumer) implies {
                &&& all.contains_key(consumer)
                &&& all[consumer].deps.contains(dep)
                &&& !(self.data_objects[dep].state is Removed)
            } by {
                assert(self.all_tasks(None).contains_key(consumer));
            }
        }
    }

    /// The dependency has to be fetched: its bytes are not held here.
    pub open spec fn dep_is_remote(self, dep: TaskId) -> bool {
        !is_local(self.data_objects, dep)
    }

    /// The data object of `dep` once `consumer` depends on it. An object
    /// that was given up counts as unknown: it is made anew, to be fetched
    /// from `workers`.
    pub open spec fn dep_object(
        self,
        consumer: TaskId,
        dep: TaskId,
        size: u64,
        workers: Seq<WorkerId>,
    ) -> DataObjectView {
        if self.data_objects.contains_key(dep) && !(self.data_objects[dep].state is Removed) {
            let known = self.data_objects[dep];
            DataObjectView {
                id: known.id,
                size: known.size,
                state: if known.state is Remote {
                    DataStateView::Remote(workers)
                } else {
                    known.state
                },
                consumers: known.consumers.insert(consumer),
            }
        } else {
            DataObjectView {
                id: dep,
                size,
                state: DataStateView::Remote(workers),
                consumers: Set::empty().insert(consumer),
            }
        }
    }

    /// The worker after `task`, which is being put together, has declared
    /// the dependency `dep`.
    pub open spec fn add_dependancy(
        self,
        task: TaskView,
        dep: TaskId,
        size: u64,
        workers: Seq<WorkerId>,
    ) -> WorkerView {
        WorkerView {
            data_objects: self.data_objects.insert(dep, self.dep_object(task.id, dep, size, workers)),
            outbox: if self.dep_is_remote(dep) {
                self.outbox.push(WorkerAction::Download { id: dep, priority: task.priority })
            } else {
                self.outbox
            },
            ..self
        }
    }

    /// The task after it has declared the dependency `dep`.
    pub open spec fn task_with_dependancy(self, task: TaskView, dep: TaskId) -> TaskView {
        TaskView {
            deps: task.deps.push(dep),
            state: if self.dep_is_remote(dep) {
                TaskState::Waiting((task.waiting() + 1) as usize)
            } else {
                task.state
            },
            ..task
        }
    }

    /// Declaring a new dependency keeps the worker consistent.
    pub proof fn lemma_add_dependancy(
        self,
        task: TaskView,
        dep: TaskId,
        size: u64,
        workers: Seq<WorkerId>,
    )
        requires
            self.inv_with(Some(task)),
            !task.deps.contains(dep),
            task.deps.len() < usize::MAX,
        ensures
            self.add_dependancy(task, dep, size, workers).inv_with(
                Some(self.task_with_dependancy(task, dep)),
            ),
    {
        let after = self.add_dependancy(task, dep, size, workers);
        let new_task = self.task_with_dependancy(task, dep);
        let all = self.all_tasks(Some(task));
        let new_all = after.all_tasks(Some(new_task));
        assert(all.contains_key(task.id));
        assert(self.task_ok(task, task.id));
        lemma_pending_count_bound(task.deps, self.data_objects);
        assert forall|d: TaskId| is_local(self.data_objects, d) == is_local(after.data_objects, d) by {}
        assert forall|id: TaskId| #[trigger] new_all.contains_key(id) implies after.task_ok(
            new_all[id],
            id,
        ) by {
            assert(all.contains_key(id));
            let old_task = all[id];
            assert(self.task_ok(old_task, id));
            lemma_pending_count_same(old_task.deps, self.data_objects, after.data_objects);
            if id == task.id {
                lemma_pending_count_push(task.deps, dep, after.data_objects);
                assert forall|i: int| 0 <= i < new_task.deps.len() implies {
                    &&& after.data_objects.contains_key(#[trigger] new_task.deps[i])
                    &&& after.data_objects[new_task.deps[i]].consumers.contains(id)
                } by {
                    if i < task.deps.len() {
                        assert(new_task.deps[i] == task.deps[i]);
                    }
                }
                assert(new_task.deps.no_duplicates()) by {
                    assert forall|i: int, j: int|
                        0 <= i < new_task.deps.len() && 0 <= j < new_task.deps.len() && i != j implies new_task.deps[i]
                        != new_task.deps[j] by {
                        if i < task.deps.len() {
                            assert(task.deps.contains(new_task.deps[i]));
                        }
                        if j < task.deps.len() {
                            assert(task.deps.contains(new_task.deps[j]));
                        }
                    }
                }
            } else {
                assert forall|i: int| 0 <= i < old_task.deps.len() implies {
                    &&& after.data_objects.contains_key(#[trigger] old_task.deps[i])
                    &&& after.data_objects[old_task.deps[i]].consumers.contains(id)
                } by {}
            }
        }
        assert forall|d: TaskId| #[trigger] after.data_objects.contains_key(d) implies after.data_ok(
            Some(new_task),
            d,
        ) by {
            if self.data_objects.contains_key(d) {
                assert(self.data_ok(Some(task), d));
            }
            assert forall|consumer: TaskId| #[trigger]
                after.data_objects[d].consumers.contains(consumer) implies {
                &&& new_all.contains_key(consumer)
                &&& new_all[consumer].deps.contains(d)
                &&& !(after.data_objects[d].state is Removed)
            } by {
                if d == dep && consumer == task.id {
                    assert(new_task.deps[task.deps.len() as int] == dep);
                } else {
                    assert(self.data_objects.contains_key(d));
                    assert(self.data_objects[d].consumers.contains(consumer));
                    assert(all.contains_key(consumer));
                    if consumer == task.id {
                        let k = choose|k: int| 0 <= k < task.deps.len() && task.deps[k] == d;
                        assert(new_task.deps[k] == d);
                    }
                }
            }
        }
    }

    /// The data object after `consumer` stopped reading it. A remote object
    /// that nobody reads any more is not needed: it becomes removed.
    pub open spec fn release_consumer(object: DataObjectView, consumer: TaskId) -> DataObjectView {
        let consumers = object.consumers.remove(consumer);
        DataObjectView {
            id: object.id,
            size: object.size,
            state: if consumers =~= Set::empty() && object.state is Remote {
                DataStateView::Removed
            } else {
                object.state
            },
            consumers,
        }
    }

    /// The worker after the task `id` has left it, whether it was given up
    /// while waiting or has finished on a subworker. The task is forgotten,
    /// it leaves the ready queue, its dependencies lose it as a consumer, and
    /// the subworker that ran it is free again.
    pub open spec fn remove_task(self, id: TaskId) -> WorkerView {
        let task = self.tasks[id];
        WorkerView {
            tasks: self.tasks.remove(id),
            ready: self.ready.remove(id),
            data_objects: Map::new(
                |dep: TaskId| self.data_objects.contains_key(dep),
                |dep: TaskId|
                    if task.deps.contains(dep) {
                        Self::release_consumer(self.data_objects[dep], id)
                    } else {
                        self.data_objects[dep]
                    },
            ),
            subworkers: match task.state {
                TaskState::Running(s) => self.subworkers.insert(
                    s,
                    Subworker { id: s, running_task: None },
                ),
                _ => self.subworkers,
            },
            free_subworkers: match task.state {
                TaskState::Running(s) => self.free_subworkers.push(s),
                _ => self.free_subworkers,
            },
            ..self
        }
    }

    /// Removing a task keeps the worker consistent.
    pub proof fn lemma_remove_task(self, id: TaskId)
        requires
            self.inv(),
            self.tasks.contains_key(id),
        ensures
            self.remove_task(id).inv(),
    {
        let after = self.remove_task(id);
        let task = self.tasks[id];
        assert(self.all_tasks(None).contains_key(id));
        assert(self.task_ok(task, id));
        assert forall|d: TaskId| is_local(self.data_objects, d) == is_local(after.data_objects, d) by {}
        assert forall|other: TaskId| #[trigger] after.all_tasks(None).contains_key(other) implies after.task_ok(
            after.all_tasks(None)[other],
            other,
        ) by {
            assert(self.all_tasks(None).contains_key(other));
            let t = self.tasks[other];
            assert(self.task_ok(t, other));
            lemma_pending_count_same(t.deps, self.data_objects, after.data_objects);
        }
        assert forall|dep: TaskId| #[trigger] after.data_objects.contains_key(dep) implies after.data_ok(
            None,
            dep,
        ) by {
            assert(self.data_ok(None, dep));
            assert forall|consumer: TaskId| #[trigger]
                after.data_objects[dep].consumers.contains(consumer) implies {
                &&& after.all_tasks(None).contains_key(consumer)
                &&& after.all_tasks(None)[consumer].deps.contains(dep)
                &&& !(after.data_objects[dep].state is Removed)
            } by {
                assert(self.data_objects[dep].consumers.contains(consumer));
                if task.deps.contains(dep) {
                    assert(consumer != id);
                    assert(self.data_objects[dep].consumers.remove(id).contains(consumer));
                } else {
                    if consumer == id {
                        assert(self.all_tasks(None)[id].deps.contains(dep));
                    }
                }
            }
        }
        assert(after.ready_ok());
        match task.state {
            TaskState::Running(s) => {
                assert(self.subworkers.contains_key(s));
                assert(!self.free_subworkers.contains(s)) by {
                    if self.free_subworkers.contains(s) {
                        let i = choose|i: int|
                            0 <= i < self.free_subworkers.len() && self.free_subworkers[i] == s;
                        assert(self.subworkers[self.free_subworkers[i]].running_task is None);
                    }
                }
                assert(after.free_subworkers.no_duplicates()) by {
                    assert forall|i: int, j: int|
                        0 <= i < after.free_subworkers.len() && 0 <= j < after.free_subworkers.len() && i
                            != j implies after.free_subworkers[i] != after.free_subworkers[j] by {
                        if i < self.free_subworkers.len() {
                            assert(self.free_subworkers.contains(after.free_subworkers[i]));
                        }
                        if j < self.free_subworkers.len() {
                            assert(self.free_subworkers.contains(after.free_subworkers[j]));
                        }
                    }
                }
                assert forall|i: int| 0 <= i < after.free_subworkers.len() implies {
                    &&& after.subworkers.contains_key(#[trigger] after.free_subworkers[i])
                    &&& after.subworkers[after.free_subworkers[i]].running_task is None
                } by {
                    if i < self.free_subworkers.len() {
                        assert(after.free_subworkers[i] == self.free_subworkers[i]);
                    }
                }
                assert forall|other: SubworkerId| #[trigger]
                    after.subworkers.contains_key(other) implies {
                    &&& after.subworkers[other].id == other
                    &&& match after.subworkers[other].running_task {
                        Some(running) => after.tasks.contains_key(running) && after.tasks[running].state
                            == TaskState::Running(other),
                        None => after.free_subworkers.contains(other),
                    }
                } by {
                    if other == s {
                        assert(after.free_subworkers[self.free_subworkers.len() as int] == s);
                    } else {
                        assert(self.subworkers.contains_key(other));
                        match self.subworkers[other].running_task {
                            Some(running) => {},
                            None => {
                                let i = choose|i: int|
                                    0 <= i < self.free_subworkers.len() && self.free_subworkers[i]
                                        == other;
                                assert(after.free_subworkers[i] == other);
                            },
                        }
                    }
                }
                assert(after.subworkers_ok());
            },
            _ => {
                assert forall|other: SubworkerId| #[trigger]
                    after.subworkers.contains_key(other) implies {
                    &&& after.subworkers[other].id == other
                    &&& match after.subworkers[other].running_task {
                        Some(running) => after.tasks.contains_key(running) && after.tasks[running].state
                            == TaskState::Running(other),
                        None => after.free_subworkers.contains(other),
                    }
                } by {
                    assert(self.subworkers.contains_key(other));
                }
                assert(after.subworkers_ok());
            },
        }
    }

    /// Some task is ready.
    pub open spec fn has_ready(self) -> bool {
        exists|id: TaskId| self.ready.contains_key(id)
    }

    /// `id` is queued and no queued task has a smaller key.
    pub open spec fn is_best(self, id: TaskId) -> bool {
        &&& self.ready.contains_key(id)
        &&& forall|other: TaskId| #[trigger]
            self.ready.contains_key(other) ==> key_le(self.ready[id], self.ready[other])
    }

    /// The task that leaves the ready queue next.
    pub open spec fn best_ready(self) -> TaskId {
        choose|id: TaskId| self.is_best(id)
    }

    /// The worker after the ready task `id` has been handed to the free
    /// subworker on top of the stack.
    pub open spec fn start_task(self, id: TaskId) -> WorkerView {
        let subworker = self.free_subworkers.last();
        WorkerView {
            tasks: self.tasks.insert(
                id,
                TaskView { state: TaskState::Running(subworker), ..self.tasks[id] },
            ),
            ready: self.ready.remove(id),
            subworkers: self.subworkers.insert(
                subworker,
                Subworker { id: subworker, running_task: Some(id) },
            ),
            free_subworkers: self.free_subworkers.drop_last(),
            outbox: self.outbox.push(WorkerAction::StartTask { subworker, task: id }),
            ..self
        }
    }

    /// The worker after ready tasks have been started, best first, until no
    /// subworker is free or no task is ready.
    pub open spec fn try_start_tasks(self) -> WorkerView
        decreases self.free_subworkers.len(),
    {
        if self.free_subworkers.len() == 0 || !self.has_ready() {
            self
        } else {
            self.start_task(self.best_ready()).try_start_tasks()
        }
    }

    /// Keys hold the identifier, so at most one queued task is the best.
    pub proof fn lemma_best_unique(self, a: TaskId, b: TaskId)
        requires
            self.inv(),
            self.is_best(a),
            self.is_best(b),
        ensures
            a == b,
    {
        assert(self.all_tasks(None).contains_key(a));
        assert(self.all_tasks(None).contains_key(b));
        assert(self.task_ok(self.tasks[a], a));
        assert(self.task_ok(self.tasks[b], b));
    }

    /// A worker with a ready task has a best one.
    pub proof fn lemma_best_exists(self)
        requires
            self.inv(),
            self.has_ready(),
        ensures
            self.is_best(self.best_ready()),
    {
        assert(self.ready.dom().subset_of(self.tasks.dom()));
        vstd::set_lib::lemma_len_subset(self.ready.dom(), self.tasks.dom());
        let first = choose|id: TaskId| self.ready.contains_key(id);
        Self::lemma_least_key(self.ready, self.ready.dom(), first);
        let least = choose|id: TaskId|
            self.ready.dom().contains(id) && forall|other: TaskId| #[trigger]
                self.ready.dom().contains(other) ==> key_le(self.ready[id], self.ready[other]);
        assert(self.is_best(least));
    }

    /// Among finitely many queued identifiers one has the least key.
    pub proof fn lemma_least_key(ready: Map<TaskId, QueueKey>, ids: Set<TaskId>, member: TaskId)
        requires
            ids.finite(),
            ids.contains(member),
        ensures
            exists|id: TaskId|
                ids.contains(id) && forall|other: TaskId| #[trigger]
                    ids.contains(other) ==> key_le(ready[id], ready[other]),
        decreases ids.len(),
    {
        let rest = ids.remove(member);
        if rest.len() == 0 {
            assert forall|other: TaskId| #[trigger] ids.contains(other) implies key_le(
                ready[member],
                ready[other],
            ) by {
                if other != member {
                    assert(rest.contains(other));
                    assert(false);
                }
            }
        } else {
            let next = rest.choose();
            Self::lemma_least_key(ready, rest, next);
            let least = choose|id: TaskId|
                rest.contains(id) && forall|other: TaskId| #[trigger]
                    rest.contains(other) ==> key_le(ready[id], ready[other]);
            let winner = if key_le(ready[member], ready[least]) {
                member
            } else {
                least
            };
            assert forall|other: TaskId| #[trigger] ids.contains(other) implies key_le(
                ready[winner],
                ready[other],
            ) by {
                if other != member {
                    assert(rest.contains(other));
                }
            }
        }
    }

    /// Starting the best ready task on a free subworker keeps the worker
    /// consistent.
    pub proof fn lemma_start_task(self, id: TaskId)
        requires
            self.inv(),
            self.free_subworkers.len() > 0,
            self.ready.contains_key(id),
        ensures
            self.start_task(id).inv(),
    {
        let after = self.start_task(id);
        let subworker = self.free_subworkers.last();
        let last = self.free_subworkers.len() - 1;
        assert(subworker == self.free_subworkers[last]);
        assert(self.subworkers.contains_key(subworker));
        assert(self.all_tasks(None).contains_key(id));
        assert(self.task_ok(self.tasks[id], id));
        assert forall|other: TaskId| #[trigger] after.all_tasks(None).contains_key(other) implies after.task_ok(
            after.all_tasks(None)[other],
            other,
        ) by {
            assert(self.all_tasks(None).contains_key(other));
            assert(self.task_ok(self.tasks[other], other));
        }
        assert forall|dep: TaskId| #[trigger] after.data_objects.contains_key(dep) implies after.data_ok(
            None,
            dep,
        ) by {
            assert(self.data_ok(None, dep));
            assert forall|consumer: TaskId| #[trigger]
                after.data_objects[dep].consumers.contains(consumer) implies {
                &&& after.all_tasks(None).contains_key(consumer)
                &&& after.all_tasks(None)[consumer].deps.contains(dep)
                &&& !(after.data_objects[dep].state is Removed)
            } by {
                assert(self.all_tasks(None).contains_key(consumer));
            }
        }
        assert(after.ready_ok());
        assert forall|i: int| 0 <= i < after.free_subworkers.len() implies {
            &&& after.subworkers.contains_key(#[trigger] after.free_subworkers[i])
            &&& after.subworkers[after.free_subworkers[i]].running_task is None
        } by {
            assert(after.free_subworkers[i] == self.free_subworkers[i]);
            assert(self.free_subworkers[i] != self.free_subworkers[last]);
        }
        assert forall|other: SubworkerId| #[trigger] after.subworkers.contains_key(other) implies {
            &&& after.subworkers[other].id == other
            &&& match after.subworkers[other].running_task {
                Some(running) => after.tasks.contains_key(running) && after.tasks[running].state
                    == TaskState::Running(other),
                None => after.free_subworkers.contains(other),
            }
        } by {
            if other != subworker {
                assert(self.subworkers.contains_key(other));
                match self.subworkers[other].running_task {
                    Some(running) => {},
                    None => {
                        let i = choose|i: int|
                            0 <= i < self.free_subworkers.len() && self.free_subworkers[i] == other;
                        assert(after.free_subworkers[i] == other);
                    },
                }
            }
        }
        assert forall|other: TaskId| #[trigger] after.tasks.contains_key(other) implies (
        after.tasks[other].state matches TaskState::Running(s) ==> {
            &&& after.subworkers.contains_key(s)
            &&& after.subworkers[s].running_task == Some(other)
        }) by {
            if other != id {
                assert(self.tasks.contains_key(other));
            }
        }
    }

    /// Starting tasks keeps the worker consistent, and it goes on until the
    /// subworkers or the ready tasks run out.
    pub proof fn lemma_try_start_tasks(self)
        requires
            self.inv(),
        ensures
            self.try_start_tasks().inv(),
            self.try_start_tasks().free_subworkers.len() == 0 || !self.try_start_tasks().has_ready(),
        decreases self.free_subworkers.len(),
    {
        if self.free_subworkers.len() == 0 || !self.has_ready() {
        } else {
            self.lemma_best_exists();
            self.lemma_start_task(self.best_ready());
            self.start_task(self.best_ready()).lemma_try_start_tasks();
        }
    }

    /// The worker after `task` has been entered among its tasks, and into
    /// the ready queue if it waits for nothing.
    pub open spec fn insert_task(self, task: TaskView) -> WorkerView {
        WorkerView {
            tasks: self.tasks.insert(task.id, task),
            ready: if task.is_ready() {
                self.ready.insert(task.id, task.queue_key())
            } else {
                self.ready
            },
            ..self
        }
    }

    /// The worker after a task that waits for nothing has been added: the
    /// task is queued and ready tasks are started.
    pub open spec fn add_ready_task(self, task: TaskView) -> WorkerView {
        self.insert_task(task).try_start_tasks()
    }

    /// The worker after `task` has been added. A task that waits for nothing
    /// is queued and ready tasks are started; another task only gets known.
    pub open spec fn add_task(self, task: TaskView) -> WorkerView {
        if task.is_ready() {
            self.add_ready_task(task)
        } else {
            self.insert_task(task)
        }
    }

    /// Entering the task that was being put together gives a consistent
    /// worker.
    pub proof fn lemma_insert_task(self, task: TaskView)
        requires
            self.inv_with(Some(task)),
        ensures
            self.insert_task(task).inv(),
    {
        let after = self.insert_task(task);
        assert(after.all_tasks(None) == self.all_tasks(Some(task)));
        assert forall|id: TaskId| #[trigger] after.all_tasks(None).contains_key(id) implies after.task_ok(
            after.all_tasks(None)[id],
            id,
        ) by {
            assert(self.all_tasks(Some(task)).contains_key(id));
            assert(self.task_ok(self.all_tasks(Some(task))[id], id));
        }
        assert forall|dep: TaskId| #[trigger] after.data_objects.contains_key(dep) implies after.data_ok(
            None,
            dep,
        ) by {
            assert(self.data_ok(Some(task), dep));
        }
        assert(after.ready_ok()) by {
            assert(!self.ready.contains_key(task.id));
        }
        assert forall|other: SubworkerId| #[trigger] after.subworkers.contains_key(other) implies {
            &&& after.subworkers[other].id == other
            &&& match after.subworkers[other].running_task {
                Some(running) => after.tasks.contains_key(running) && after.tasks[running].state
                    == TaskState::Running(other),
                None => after.free_subworkers.contains(other),
            }
        } by {
            assert(self.subworkers.contains_key(other));
        }
        assert forall|other: TaskId| #[trigger] after.tasks.contains_key(other) implies (
        after.tasks[other].state matches TaskState::Running(s) ==> {
            &&& after.subworkers.contains_key(s)
            &&& after.subworkers[s].running_task == Some(other)
        }) by {
            if other != task.id {
                assert(self.tasks.contains_key(other));
            }
        }
    }

    /// Adding the task that was being put together gives a consistent worker.
    pub proof fn lemma_add_task(self, task: TaskView)
        requires
            self.inv_with(Some(task)),
        ensures
            self.add_task(task).inv(),
            self.add_ready_task(task).inv(),
    {
        self.lemma_insert_task(task);
        self.insert_task(task).lemma_try_start_tasks();
    }

    /// The tasks after the consumers of the data object `id` have learnt that
    /// it is local.
    pub open spec fn notify_consumers(self, id: TaskId) -> Map<TaskId, TaskView> {
        Map::new(
            |task: TaskId| self.tasks.contains_key(task),
            |task: TaskId|
                if self.data_objects[id].consumers.contains(task) {
                    self.tasks[task].dependency_arrived()
                } else {
                    self.tasks[task]
                },
        )
    }

    /// The worker after the data object `id`, which was not local, has got
    /// its bytes: the object is local, with `size`, and every consumer waits
    /// for one dependency less; those that wait for nothing any more are
    /// queued.
    pub open spec fn made_local(
        self,
        id: TaskId,
        size: u64,
        bytes: Seq<u8>,
        serializer: SerializationType,
    ) -> WorkerView {
        WorkerView {
            data_objects: self.data_objects.insert(
                id,
                DataObjectView {
                    size,
                    state: DataStateView::Local(serializer, bytes),
                    ..self.data_objects[id]
                },
            ),
            tasks: self.notify_consumers(id),
            ready: ready_of(self.notify_consumers(id)),
            ..self
        }
    }

    /// The worker after the bytes of the remote data object `id` have
    /// arrived: the object is local, the scheduler is told, and every
    /// consumer waits for one dependency less; those that wait for nothing
    /// any more are queued.
    pub open spec fn data_arrived(
        self,
        id: TaskId,
        bytes: Seq<u8>,
        serializer: SerializationType,
    ) -> WorkerView {
        WorkerView {
            data_objects: self.data_objects.insert(
                id,
                DataObjectView {
                    state: DataStateView::Local(serializer, bytes),
                    ..self.data_objects[id]
                },
            ),
            tasks: self.notify_consumers(id),
            ready: ready_of(self.notify_consumers(id)),
            outbox: self.outbox.push(
                WorkerAction::SendToServer(
                    FromWorkerMessage::DataDownloaded(DataDownloadedMsg { id }),
                ),
            ),
            ..self
        }
    }

    /// The worker after a download of the data object `id` has ended. The
    /// bytes of an object that is unknown, removed or local already are
    /// dropped. Otherwise the object is local from now on and ready tasks
    /// are started.
    pub open spec fn on_data_downloaded(
        self,
        id: TaskId,
        bytes: Seq<u8>,
        serializer: SerializationType,
    ) -> WorkerView {
        if self.data_objects.contains_key(id) && self.data_objects[id].state is Remote {
            self.data_arrived(id, bytes, serializer).try_start_tasks()
        } else {
            self
        }
    }

    /// A task that reads a data object which is not local waits for it.
    pub proof fn lemma_consumer_waits(self, id: TaskId, task: TaskId)
        requires
            self.inv(),
            self.data_objects.contains_key(id),
            !(self.data_objects[id].state is Local),
            self.data_objects[id].consumers.contains(task),
        ensures
            self.tasks.contains_key(task),
            self.tasks[task].deps.contains(id),
            self.tasks[task].state matches TaskState::Waiting(n) && n > 0,
    {
        assert(self.data_ok(None, id));
        assert(self.all_tasks(None).contains_key(task));
        assert(self.task_ok(self.tasks[task], task));
        lemma_pending_count_bound(self.tasks[task].deps, self.data_objects);
        let k = choose|k: int| 0 <= k < self.tasks[task].deps.len() && self.tasks[task].deps[k] == id;
        assert(!is_local(self.data_objects, self.tasks[task].deps[k]));
    }

    /// Bytes for a data object that was remote keep the worker consistent.
    pub proof fn lemma_made_local(
        self,
        id: TaskId,
        size: u64,
        bytes: Seq<u8>,
        serializer: SerializationType,
    )
        requires
            self.inv(),
            self.data_objects.contains_key(id),
            self.data_objects[id].state is Remote,
        ensures
            self.made_local(id, size, bytes, serializer).inv(),
    {
        let after = self.made_local(id, size, bytes, serializer);
        assert(after.tasks.dom() =~= self.tasks.dom());
        assert(self.data_ok(None, id));
        assert forall|task: TaskId| #[trigger] after.all_tasks(None).contains_key(task) implies after.task_ok(
            after.all_tasks(None)[task],
            task,
        ) by {
            assert(self.all_tasks(None).contains_key(task));
            let t = self.tasks[task];
            assert(self.task_ok(t, task));
            if self.data_objects[id].consumers.contains(task) {
                self.lemma_consumer_waits(id, task);
                lemma_pending_count_arrival(t.deps, id, self.data_objects, after.data_objects);
            } else {
                assert forall|i: int| 0 <= i < t.deps.len() implies is_local(
                    self.data_objects,
                    #[trigger] t.deps[i],
                ) == is_local(after.data_objects, t.deps[i]) by {
                    if t.deps[i] == id {
                        assert(self.data_objects[t.deps[i]].consumers.contains(task));
                    }
                }
                lemma_pending_count_same(t.deps, self.data_objects, after.data_objects);
            }
        }
        assert forall|dep: TaskId| #[trigger] after.data_objects.contains_key(dep) implies after.data_ok(
            None,
            dep,
        ) by {
            assert(self.data_ok(None, dep));
            assert forall|consumer: TaskId| #[trigger]
                after.data_objects[dep].consumers.contains(consumer) implies {
                &&& after.all_tasks(None).contains_key(consumer)
                &&& after.all_tasks(None)[consumer].deps.contains(dep)
                &&& !(after.data_objects[dep].state is Removed)
            } by {
                assert(self.all_tasks(None).contains_key(consumer));
            }
        }
        assert(after.ready_ok());
        assert forall|other: SubworkerId| #[trigger] after.subworkers.contains_key(other) implies {
            &&& after.subworkers[other].id == other
            &&& match after.subworkers[other].running_task {
                Some(running) => after.tasks.contains_key(running) && after.tasks[running].state
                    == TaskState::Running(other),
                None => after.free_subworkers.contains(other),
            }
        } by {
            assert(self.subworkers.contains_key(other));
        }
        assert forall|task: TaskId| #[trigger] after.tasks.contains_key(task) implies (
        after.tasks[task].state matches TaskState::Running(s) ==> {
            &&& after.subworkers.contains_key(s)
            &&& after.subworkers[s].running_task == Some(task)
        }) by {
            assert(self.tasks.contains_key(task));
        }
    }

    /// The arrival of remote data keeps the worker consistent.
    pub proof fn lemma_data_arrived(self, id: TaskId, bytes: Seq<u8>, serializer: SerializationType)
        requires
            self.inv(),
            self.data_objects.contains_key(id),
            self.data_objects[id].state is Remote,
        ensures
            self.data_arrived(id, bytes, serializer).inv(),
            self.on_data_downloaded(id, bytes, serializer).inv(),
    {
        let local = self.made_local(id, self.data_objects[id].size, bytes, serializer);
        let after = self.data_arrived(id, bytes, serializer);
        self.lemma_made_local(id, self.data_objects[id].size, bytes, serializer);
        local.lemma_outbox(after.outbox);
        assert(after.data_objects =~= local.data_objects);
        assert(after == (WorkerView { outbox: after.outbox, ..local }));
        after.lemma_try_start_tasks();
    }

    /// The answer to a request to give up the task `id`.
    pub open spec fn steal_response(self, id: TaskId) -> StealResponse {
        if !self.tasks.contains_key(id) {
            StealResponse::NotHere
        } else {
            match self.tasks[id].state {
                TaskState::Waiting(_) => StealResponse::Success,
                TaskState::Running(_) => StealResponse::Running,
                TaskState::Removed => StealResponse::NotHere,
            }
        }
    }

    /// The worker after a request to give up the task `id`: a waiting task
    /// leaves the worker, anything else stays as it is.
    pub open spec fn steal_task(self, id: TaskId) -> WorkerView {
        if self.steal_response(id) == StealResponse::Success {
            self.remove_task(id)
        } else {
            self
        }
    }

    /// The data object `id` cannot be removed: local tasks still read it.
    pub open spec fn data_still_needed(self, id: TaskId) -> bool {
        self.data_objects.contains_key(id) && exists|consumer: TaskId|
            self.data_objects[id].consumers.contains(consumer)
    }

    /// The worker after the scheduler asked to remove the data object `id`.
    pub open spec fn remove_data(self, id: TaskId) -> WorkerView {
        if self.data_still_needed(id) {
            self
        } else {
            WorkerView { data_objects: self.data_objects.remove(id), ..self }
        }
    }

    /// Removing a data object that no task reads keeps the worker
    /// consistent.
    pub proof fn lemma_remove_data(self, id: TaskId)
        requires
            self.inv(),
        ensures
            self.remove_data(id).inv(),
    {
        let after = self.remove_data(id);
        if !self.data_still_needed(id) {
            assert forall|task: TaskId| #[trigger] after.all_tasks(None).contains_key(task) implies after.task_ok(
                after.all_tasks(None)[task],
                task,
            ) by {
                assert(self.all_tasks(None).contains_key(task));
                let t = self.tasks[task];
                assert(self.task_ok(t, task));
                assert forall|i: int| 0 <= i < t.deps.len() implies #[trigger] t.deps[i] != id by {
                    assert(self.data_objects[t.deps[i]].consumers.contains(task));
                }
                lemma_pending_count_same(t.deps, self.data_objects, after.data_objects);
            }
            assert forall|dep: TaskId| #[trigger] after.data_objects.contains_key(dep) implies after.data_ok(
                None,
                dep,
            ) by {
                assert(self.data_ok(None, dep));
            }
        }
    }

    /// The data object that stands for `object`, which was made on this
    /// worker, once it is entered: its readers are the tasks that read the
    /// object known under its identifier so far.
    pub open spec fn entered(self, object: DataObjectView) -> DataObjectView {
        DataObjectView {
            consumers: if self.data_objects.contains_key(object.id) {
                self.data_objects[object.id].consumers
            } else {
                Set::empty()
            },
            ..object
        }
    }

    /// The worker after a data object has been made on it. The object takes
    /// the place of the one known under its identifier and keeps that one's
    /// readers. Where the bytes were still to be fetched, every reader waits
    /// for one dependency less, those that wait for nothing any more are
    /// queued, and ready tasks are started.
    pub open spec fn add_data_object(self, object: DataObjectView) -> WorkerView {
        let id = object.id;
        let data_objects = self.data_objects.insert(id, self.entered(object));
        if self.data_objects.contains_key(id) && self.data_objects[id].state is Remote {
            (WorkerView {
                data_objects,
                tasks: self.notify_consumers(id),
                ready: ready_of(self.notify_consumers(id)),
                ..self
            }).try_start_tasks()
        } else {
            WorkerView { data_objects, ..self }
        }
    }

    /// Entering a remote object's bytes by hand is the arrival of its bytes.
    pub proof fn lemma_entered_is_made_local(
        self,
        object: DataObjectView,
        bytes: Seq<u8>,
        serializer: SerializationType,
    )
        requires
            self.inv(),
            object.state == DataStateView::Local(serializer, bytes),
            self.data_objects.contains_key(object.id),
            self.data_objects[object.id].state is Remote,
        ensures
            self.add_data_object(object) == self.made_local(
                object.id,
                object.size,
                bytes,
                serializer,
            ).try_start_tasks(),
    {
        assert(self.data_ok(None, object.id));
        let local = self.made_local(object.id, object.size, bytes, serializer);
        assert(local.data_objects =~= self.data_objects.insert(object.id, self.entered(object)));
    }

    /// A data object made on this worker keeps the worker consistent.
    pub proof fn lemma_add_data_object(self, object: DataObjectView)
        requires
            self.inv(),
            object.state is Local,
        ensures
            self.add_data_object(object).inv(),
    {
        let id = object.id;
        if self.data_objects.contains_key(id) && self.data_objects[id].state is Remote {
            match object.state {
                DataStateView::Local(serializer, bytes) => {
                    self.lemma_entered_is_made_local(object, bytes, serializer);
                    self.lemma_made_local(id, object.size, bytes, serializer);
                    self.made_local(id, object.size, bytes, serializer).lemma_try_start_tasks();
                },
                _ => {},
            }
        } else {
            let after = self.add_data_object(object);
            if self.data_objects.contains_key(id) {
                assert(self.data_ok(None, id));
            }
            assert forall|task: TaskId| #[trigger] after.all_tasks(None).contains_key(task) implies after.task_ok(
                after.all_tasks(None)[task],
                task,
            ) by {
                assert(self.all_tasks(None).contains_key(task));
                let t = self.tasks[task];
                assert(self.task_ok(t, task));
                assert forall|i: int| 0 <= i < t.deps.len() implies is_local(
                    self.data_objects,
                    #[trigger] t.deps[i],
                ) == is_local(after.data_objects, t.deps[i]) by {
                    assert(self.data_objects[t.deps[i]].consumers.contains(task));
                    if t.deps[i] == id {
                        assert(self.data_ok(None, id));
                    }
                }
                lemma_pending_count_same(t.deps, self.data_objects, after.data_objects);
            }
            assert forall|dep: TaskId| #[trigger] after.data_objects.contains_key(dep) implies after.data_ok(
                None,
                dep,
            ) by {
                if dep != id {
                    assert(self.data_ok(None, dep));
                } else if self.data_objects.contains_key(id) {
                    assert(self.data_ok(None, id));
                    assert forall|consumer: TaskId| #[trigger]
                        after.data_objects[dep].consumers.contains(consumer) implies {
                        &&& after.all_tasks(None).contains_key(consumer)
                        &&& after.all_tasks(None)[consumer].deps.contains(dep)
                        &&& !(after.data_objects[dep].state is Removed)
                    } by {
                        assert(self.data_objects[id].consumers.contains(consumer));
                        assert(self.all_tasks(None).contains_key(consumer));
                    }
                }
            }
        }
    }

    /// The worker after a message to the scheduler has been put into the
    /// outbox.
    pub open spec fn send_message_to_server(self, message: FromWorkerMessage) -> WorkerView {
        WorkerView { outbox: self.outbox.push(WorkerAction::SendToServer(message)), ..self }
    }

    /// The worker after every candidate has failed to deliver the data
    /// object `id`: if the object is still waited for, the scheduler is
    /// told that it is unavailable.
    pub open spec fn on_data_unavailable(self, id: TaskId) -> WorkerView {
        if self.data_objects.contains_key(id) && self.data_objects[id].state is Remote {
            self.send_message_to_server(
                FromWorkerMessage::DataUnavailable(DataUnavailableMsg { id }),
            )
        } else {
            self
        }
    }

    /// The worker after its outbox has been emptied.
    pub open spec fn without_actions(self) -> WorkerView {
        WorkerView { outbox: Seq::empty(), ..self }
    }

    /// Consistency does not depend on the outbox.
    pub proof fn lemma_outbox(self, outbox: Seq<WorkerAction>)
        requires
            self.inv(),
        ensures
            (WorkerView { outbox, ..self }).inv(),
    {
        let after = WorkerView { outbox, ..self };
        assert forall|task: TaskId| #[trigger] after.all_tasks(None).contains_key(task) implies after.task_ok(
            after.all_tasks(None)[task],
            task,
        ) by {
            assert(self.all_tasks(None).contains_key(task));
            assert(self.task_ok(self.tasks[task], task));
        }
        assert forall|dep: TaskId| #[trigger] after.data_objects.contains_key(dep) implies after.data_ok(
            None,
            dep,
        ) by {
            assert(self.data_ok(None, dep));
        }
    }

    /// The subworkers are distinct and run nothing.
    pub open spec fn fresh_subworkers(subworkers: Seq<Subworker>) -> bool {
        &&& forall|i: int| 0 <= i < subworkers.len() ==> (#[trigger] subworkers[i]).running_task is None
        &&& forall|i: int, j: int|
            0 <= i < j < subworkers.len() ==> (#[trigger] subworkers[i]).id != (
            #[trigger] subworkers[j]).id
    }

    /// The worker after it has been given its subworkers, all of them free.
    pub open spec fn set_subworkers(self, subworkers: Seq<Subworker>) -> WorkerView {
        WorkerView {
            subworkers: Map::new(
                |id: SubworkerId|
                    exists|i: int| 0 <= i < subworkers.len() && (#[trigger] subworkers[i]).id == id,
                |id: SubworkerId| Subworker { id, running_task: None },
            ),
            free_subworkers: Seq::new(subworkers.len(), |i: int| subworkers[i].id),
            ..self
        }
    }

    /// A worker without subworkers stays consistent when it is given fresh
    /// ones.
    pub proof fn lemma_set_subworkers(self, subworkers: Seq<Subworker>)
        requires
            self.inv(),
            self.subworkers =~= Map::empty(),
            Self::fresh_subworkers(subworkers),
        ensures
            self.set_subworkers(subworkers).inv(),
    {
        let after = self.set_subworkers(subworkers);
        assert forall|task: TaskId| #[trigger] after.all_tasks(None).contains_key(task) implies after.task_ok(
            after.all_tasks(None)[task],
            task,
        ) by {
            assert(self.all_tasks(None).contains_key(task));
            assert(self.task_ok(self.tasks[task], task));
        }
        assert forall|dep: TaskId| #[trigger] after.data_objects.contains_key(dep) implies after.data_ok(
            None,
            dep,
        ) by {
            assert(self.data_ok(None, dep));
        }
        assert forall|i: int| 0 <= i < after.free_subworkers.len() implies {
            &&& after.subworkers.contains_key(#[trigger] after.free_subworkers[i])
            &&& after.subworkers[after.free_subworkers[i]].running_task is None
        } by {
            assert(subworkers[i].id == after.free_subworkers[i]);
        }
        assert forall|s: SubworkerId| #[trigger] after.subworkers.contains_key(s) implies {
            &&& after.subworkers[s].id == s
            &&& match after.subworkers[s].running_task {
                Some(running) => after.tasks.contains_key(running) && after.tasks[running].state
                    == TaskState::Running(s),
                None => after.free_subworkers.contains(s),
            }
        } by {
            let i = choose|i: int| 0 <= i < subworkers.len() && (#[trigger] subworkers[i]).id == s;
            assert(after.free_subworkers[i] == s);
        }
        assert forall|task: TaskId| #[trigger] after.tasks.contains_key(task) implies (
        after.tasks[task].state matches TaskState::Running(s) ==> {
            &&& after.subworkers.contains_key(s)
            &&& after.subworkers[s].running_task == Some(task)
        }) by {
            assert(self.tasks.contains_key(task));
            if self.tasks[task].state is Running {
                assert(self.subworkers.contains_key(self.tasks[task].state->Running_0));
            }
        }
    }
}

} // verus!
