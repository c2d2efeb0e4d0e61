//! What the scheduler does when results or workers are lost.

use crate::common::{TaskId, WorkerId};
use crate::idlist::{lemma_count_bound, lemma_count_drop, lemma_push_new, lemma_without, without};
use crate::scheduler::messages::OutputView;
use crate::scheduler::model::SchedulerView;
use crate::scheduler::node::WorkerView;
use crate::scheduler::task::{TaskState, TaskView};
use vstd::prelude::*;

verus! {

/// `list` without the members of `gone`, the rest in its order.
pub open spec fn without_all(list: Seq<u64>, gone: Seq<u64>) -> Seq<u64>
    decreases gone.len(),
{
    if gone.len() == 0 {
        list
    } else {
        without(without_all(list, gone.drop_last()), gone.last())
    }
}

/// What is left holds the members that are not gone, and holds nothing twice
/// where `list` did not.
pub proof fn lemma_without_all(list: Seq<u64>, gone: Seq<u64>)
    ensures
        forall|id: u64| #[trigger]
            without_all(list, gone).contains(id) <==> list.contains(id) && !gone.contains(id),
        list.no_duplicates() ==> without_all(list, gone).no_duplicates(),
    decreases gone.len(),
{
    if gone.len() == 0 {
        assert forall|id: u64| #[trigger]
            without_all(list, gone).contains(id) <==> list.contains(id) && !gone.contains(id) by {
            if gone.contains(id) {
                let i = choose|i: int| 0 <= i < gone.len() && gone[i] == id;
            }
        }
    } else {
        let rest = gone.drop_last();
        let last = gone.last();
        lemma_without_all(list, rest);
        let inner = without_all(list, rest);
        lemma_without(inner, last);
        assert(without_all(list, gone) == without(inner, last));
        assert forall|id: u64| #[trigger]
            without_all(list, gone).contains(id) <==> list.contains(id) && !gone.contains(id) by {
            if gone.contains(id) {
                let i = choose|i: int| 0 <= i < gone.len() && gone[i] == id;
                if i < rest.len() {
                    assert(rest[i] == id);
                    assert(rest.contains(id));
                }
            }
            if rest.contains(id) {
                let i = choose|i: int| 0 <= i < rest.len() && rest[i] == id;
                assert(gone[i] == id);
            }
            if id == last {
                assert(gone[gone.len() - 1] == id);
            } else {
                assert(without(inner, last).contains(id) == inner.contains(id));
            }
            assert(inner.contains(id) <==> list.contains(id) && !rest.contains(id));
        }
    }
}

impl SchedulerView {
    /// The graph after the task `id` has been taken back from its worker: it
    /// waits for its unfinished dependencies again, and no steal is in
    /// flight for it.
    pub open spec fn requeue(self, id: TaskId) -> SchedulerView {
        let task = self.tasks[id];
        let worker = task.on_worker().unwrap();
        let node = self.workers[worker];
        let count = self.unfinished_deps(task.deps);
        SchedulerView {
            tasks: self.tasks.insert(
                id,
                TaskView { state: TaskState::Waiting(count as usize), steal_target: None, ..task },
            ),
            workers: self.workers.insert(worker, WorkerView { tasks: without(node.tasks, id), ..node }),
            ready: if count == 0 {
                self.ready.push(id)
            } else {
                self.ready
            },
            ..self
        }
    }

    /// The graph after the task `id` has been taken back from its worker,
    /// which is told to drop it.
    pub open spec fn cancel(self, id: TaskId) -> SchedulerView {
        SchedulerView {
            outbox: self.outbox.push(
                OutputView::RemoveTask { worker: self.tasks[id].on_worker().unwrap(), task: id },
            ),
            ..self.requeue(id)
        }
    }

    /// The graph after each assigned task of `list` has been cancelled.
    pub open spec fn cancel_assigned(self, list: Seq<TaskId>) -> SchedulerView
        decreases list.len(),
    {
        if list.len() == 0 {
            self
        } else {
            let before = self.cancel_assigned(list.drop_last());
            if before.tasks[list.last()].state is Assigned {
                before.cancel(list.last())
            } else {
                before
            }
        }
    }

    /// Taking a task back from its worker keeps the graph consistent and
    /// touches no other task.
    pub proof fn lemma_requeue(self, id: TaskId)
        requires
            self.core_inv(),
            self.tasks.contains_key(id),
            self.tasks[id].on_worker() is Some,
        ensures
            self.requeue(id).core_inv(),
            self.cancel(id).core_inv(),
            self.requeue(id).worker_order == self.worker_order,
            self.requeue(id).tasks.dom() == self.tasks.dom(),
            self.requeue(id).workers.dom() == self.workers.dom(),
            forall|other: TaskId|
                other != id ==> #[trigger] self.requeue(id).tasks[other] == self.tasks[other],
            self.requeue(id).tasks[id].state is Waiting,
            self.requeue(id).tasks[id].locations == self.tasks[id].locations,
            self.cancel(id).tasks == self.requeue(id).tasks,
            self.cancel(id).workers == self.requeue(id).workers,
            self.cancel(id).worker_order == self.worker_order,
            forall|worker: WorkerId| #[trigger]
                self.workers.contains_key(worker) ==> self.requeue(id).workers[worker].data
                    == self.workers[worker].data,
    {
        reveal(SchedulerView::core_inv);
        let after = self.requeue(id);
        let task = self.tasks[id];
        let worker = task.on_worker().unwrap();
        let node = self.workers[worker];
        assert(self.task_ok(id));
        assert(self.worker_ok(worker));
        lemma_without(node.tasks, id);
        lemma_count_bound(task.deps, |d: TaskId| self.is_unfinished(d));
        assert(after.tasks.dom() =~= self.tasks.dom());
        assert(after.workers.dom() =~= self.workers.dom());
        assert(!self.ready.contains(id));
        if self.unfinished_deps(task.deps) == 0 {
            lemma_push_new(self.ready, id);
        }
        assert forall|other: TaskId| self.is_unfinished(other) == after.is_unfinished(other) by {}
        assert forall|other: TaskId| #[trigger] after.tasks.contains_key(other) implies after.task_ok(
            other,
        ) by {
            assert(self.task_ok(other));
            let before = self.tasks[other];
            let t = after.tasks[other];
            self.lemma_unfinished_same(after, before.deps);
            assert(after.links_ok(other)) by {
                assert forall|i: int| 0 <= i < t.deps.len() implies {
                    &&& after.tasks.contains_key(#[trigger] t.deps[i])
                    &&& after.tasks[t.deps[i]].consumers.contains(other)
                } by {
                    assert(self.tasks.contains_key(before.deps[i]));
                }
                assert forall|i: int| 0 <= i < t.consumers.len() implies {
                    &&& after.tasks.contains_key(#[trigger] t.consumers[i])
                    &&& after.tasks[t.consumers[i]].deps.contains(other)
                } by {
                    assert(self.tasks.contains_key(before.consumers[i]));
                }
            }
            assert(after.locations_ok(other)) by {
                assert forall|i: int| 0 <= i < t.locations.len() implies {
                    &&& after.workers.contains_key(#[trigger] t.locations[i])
                    &&& after.workers[t.locations[i]].data.contains(other)
                } by {
                    assert(self.workers.contains_key(before.locations[i]));
                }
            }
            assert(after.state_ok(other)) by {
                if other != id && t.on_worker() is Some {
                    let w = t.on_worker().unwrap();
                    assert(self.workers[w].tasks.contains(other));
                }
            }
        }
        assert forall|n: WorkerId| #[trigger] after.workers.contains_key(n) implies after.worker_ok(n) by {
            assert(self.worker_ok(n));
            let w = after.workers[n];
            assert forall|i: int| 0 <= i < w.tasks.len() implies {
                &&& after.tasks.contains_key(#[trigger] w.tasks[i])
                &&& after.tasks[w.tasks[i]].on_worker() == Some(n)
            } by {
                let x = w.tasks[i];
                assert(w.tasks.contains(x));
                assert(self.workers[n].tasks.contains(x));
                let k = choose|k: int| 0 <= k < self.workers[n].tasks.len() && self.workers[n].tasks[k] == x;
                assert(self.tasks.contains_key(self.workers[n].tasks[k]));
                assert(self.tasks[x].on_worker() == Some(n));
            }
            assert forall|i: int| 0 <= i < w.data.len() implies {
                &&& after.tasks.contains_key(#[trigger] w.data[i])
                &&& after.tasks[w.data[i]].locations.contains(n)
            } by {
                assert(self.tasks.contains_key(self.workers[n].data[i]));
            }
        }
        assert forall|i: int| 0 <= i < after.ready.len() implies after.tasks.contains_key(
            #[trigger] after.ready[i],
        ) by {
            if i < self.ready.len() {
                assert(self.tasks.contains_key(self.ready[i]));
            }
        }
        assert(after.core_inv());
        let cancelled = self.cancel(id);
        assert(cancelled.core_inv()) by {
            assert forall|other: TaskId| after.is_unfinished(other) == cancelled.is_unfinished(other) by {}
            assert forall|other: TaskId| #[trigger] cancelled.tasks.contains_key(other) implies cancelled.task_ok(
                other,
            ) by {
                assert(after.task_ok(other));
                after.lemma_unfinished_same(cancelled, after.tasks[other].deps);
            }
            assert forall|n: WorkerId| #[trigger] cancelled.workers.contains_key(n) implies cancelled.worker_ok(
                n,
            ) by {
                assert(after.worker_ok(n));
            }
        }
    }

    /// The task `id` is where it was in `before`, or on no worker, its
    /// result is where it was, and it has not failed unless it had.
    pub open spec fn settled_like(self, before: SchedulerView, id: TaskId) -> bool {
        &&& self.tasks[id].locations == before.tasks[id].locations
        &&& self.tasks[id].on_worker() is Some ==> self.tasks[id].on_worker()
            == before.tasks[id].on_worker()
        &&& self.tasks[id].state is Erred ==> before.tasks[id].state is Erred
    }

    /// Cancelling the assigned tasks of a list keeps the graph consistent.
    /// Afterwards none of them is assigned, and tasks that are not assigned
    /// are as before.
    pub proof fn lemma_cancel_assigned(self, list: Seq<TaskId>)
        requires
            self.core_inv(),
            forall|i: int| 0 <= i < list.len() ==> self.tasks.contains_key(#[trigger] list[i]),
        ensures
            self.cancel_assigned(list).core_inv(),
            self.cancel_assigned(list).worker_order == self.worker_order,
            self.cancel_assigned(list).tasks.dom() == self.tasks.dom(),
            self.cancel_assigned(list).workers.dom() == self.workers.dom(),
            forall|id: TaskId|
                self.tasks.contains_key(id) && !(list.contains(id) && self.tasks[id].state is Assigned)
                    ==> #[trigger] self.cancel_assigned(list).tasks[id] == self.tasks[id],
            forall|i: int|
                0 <= i < list.len() ==> !(self.cancel_assigned(list).tasks[#[trigger] list[i]].state
                    is Assigned),
            forall|id: TaskId| #[trigger]
                self.tasks.contains_key(id) ==> self.cancel_assigned(list).settled_like(self, id),
            forall|worker: WorkerId| #[trigger]
                self.workers.contains_key(worker) ==> self.cancel_assigned(list).workers[worker].data
                    == self.workers[worker].data,
        decreases list.len(),
    {
        if list.len() > 0 {
            let rest = list.drop_last();
            let last = list.last();
            assert(list[list.len() - 1] == last);
            assert forall|i: int| 0 <= i < rest.len() implies self.tasks.contains_key(#[trigger] rest[i]) by {
                assert(rest[i] == list[i]);
            }
            self.lemma_cancel_assigned(rest);
            let before = self.cancel_assigned(rest);
            let after = self.cancel_assigned(list);
            assert forall|id: TaskId| list.contains(id) == (rest.contains(id) || id == last) by {
                if list.contains(id) {
                    let i = choose|i: int| 0 <= i < list.len() && list[i] == id;
                    if i < rest.len() {
                        assert(rest[i] == id);
                    }
                }
                if rest.contains(id) {
                    let i = choose|i: int| 0 <= i < rest.len() && rest[i] == id;
                    assert(list[i] == id);
                }
            }
            if before.tasks[last].state is Assigned {
                before.lemma_requeue(last);
                assert(before.cancel(last).tasks == before.requeue(last).tasks);
                assert(before.cancel(last).workers == before.requeue(last).workers);
            }
            assert forall|i: int| 0 <= i < list.len() implies !(after.tasks[#[trigger] list[i]].state
                is Assigned) by {
                if i < rest.len() {
                    assert(rest[i] == list[i]);
                    assert(!(before.tasks[rest[i]].state is Assigned));
                }
            }
            assert forall|id: TaskId|
                self.tasks.contains_key(id) && !(list.contains(id) && self.tasks[id].state
                    is Assigned) implies #[trigger] after.tasks[id] == self.tasks[id] by {
                if id == last {
                    if rest.contains(last) {
                        let i = choose|i: int| 0 <= i < rest.len() && rest[i] == last;
                        assert(!(before.tasks[rest[i]].state is Assigned));
                    }
                }
            }
            assert forall|id: TaskId| #[trigger] self.tasks.contains_key(id) implies after.settled_like(
                self,
                id,
            ) by {
                assert(before.settled_like(self, id));
            }
        }
    }

    /// The tasks after each waiting task of `consumers` has learnt that one
    /// more of its dependencies is not finished.
    pub open spec fn unsettled(self, consumers: Seq<TaskId>) -> Map<TaskId, TaskView> {
        Map::new(
            |id: TaskId| self.tasks.contains_key(id),
            |id: TaskId|
                if consumers.contains(id) {
                    match self.tasks[id].state {
                        TaskState::Waiting(n) => TaskView {
                            state: TaskState::Waiting((n + 1) as usize),
                            ..self.tasks[id]
                        },
                        _ => self.tasks[id],
                    }
                } else {
                    self.tasks[id]
                },
        )
    }

    /// The state to which a finished task goes when its result is lost: a
    /// released task is released for good, another one waits for its
    /// unfinished dependencies and will run again.
    pub open spec fn state_after_loss(self, id: TaskId) -> TaskState {
        if self.tasks[id].released {
            TaskState::Released
        } else {
            TaskState::Waiting(self.unfinished_deps(self.tasks[id].deps) as usize)
        }
    }

    /// The graph after `worker`, the last one to hold the result of the
    /// task `id`, has lost it: the task is not finished any more, and the
    /// waiting tasks that read it wait for one dependency more.
    pub open spec fn unfinish(self, worker: WorkerId, id: TaskId) -> SchedulerView {
        let task = self.tasks[id];
        let node = self.workers[worker];
        SchedulerView {
            tasks: self.unsettled(task.consumers).insert(
                id,
                TaskView { state: self.state_after_loss(id), locations: Seq::empty(), ..task },
            ),
            workers: self.workers.insert(worker, WorkerView { data: without(node.data, id), ..node }),
            ready: if self.state_after_loss(id) == TaskState::Waiting(0) {
                without_all(self.ready, task.consumers).push(id)
            } else {
                without_all(self.ready, task.consumers)
            },
            ..self
        }
    }

    /// The graph after `worker`, one of several that hold the result of the
    /// task `id`, has lost it.
    pub open spec fn shrink(self, worker: WorkerId, id: TaskId) -> SchedulerView {
        let task = self.tasks[id];
        let node = self.workers[worker];
        SchedulerView {
            tasks: self.tasks.insert(id, TaskView { locations: without(task.locations, worker), ..task }),
            workers: self.workers.insert(worker, WorkerView { data: without(node.data, id), ..node }),
            ..self
        }
    }

    /// The graph after `worker` has lost the result of the task `id`. While
    /// another worker holds the result, only the location goes. With the
    /// last location the task stops being finished: the assigned tasks that
    /// read it are cancelled, and all waiting tasks that read it wait for it
    /// again.
    pub open spec fn lose_location(self, worker: WorkerId, id: TaskId) -> SchedulerView {
        if without(self.tasks[id].locations, worker).len() > 0 {
            self.shrink(worker, id)
        } else {
            self.cancel_assigned(self.tasks[id].consumers).unfinish(worker, id)
        }
    }

    /// Losing one of several locations keeps the graph consistent.
    pub proof fn lemma_shrink(self, worker: WorkerId, id: TaskId)
        requires
            self.core_inv(),
            self.tasks.contains_key(id),
            self.tasks[id].locations.contains(worker),
            without(self.tasks[id].locations, worker).len() > 0,
        ensures
            self.shrink(worker, id).core_inv(),
    {
        reveal(SchedulerView::core_inv);
        let after = self.shrink(worker, id);
        let task = self.tasks[id];
        let node = self.workers[worker];
        assert(self.task_ok(id));
        lemma_without(task.locations, worker);
        let k = choose|k: int| 0 <= k < task.locations.len() && task.locations[k] == worker;
        assert(self.workers.contains_key(task.locations[k]));
        lemma_without(node.data, id);
        assert(after.tasks.dom() =~= self.tasks.dom());
        assert(after.workers.dom() =~= self.workers.dom());
        assert forall|other: TaskId| self.is_unfinished(other) == after.is_unfinished(other) by {}
        assert forall|other: TaskId| #[trigger] after.tasks.contains_key(other) implies after.task_ok(
            other,
        ) by {
            assert(self.task_ok(other));
            let before = self.tasks[other];
            let t = after.tasks[other];
            self.lemma_unfinished_same(after, before.deps);
            assert(after.links_ok(other)) by {
                assert forall|i: int| 0 <= i < t.deps.len() implies {
                    &&& after.tasks.contains_key(#[trigger] t.deps[i])
                    &&& after.tasks[t.deps[i]].consumers.contains(other)
                } by {
                    assert(self.tasks.contains_key(before.deps[i]));
                }
                assert forall|i: int| 0 <= i < t.consumers.len() implies {
                    &&& after.tasks.contains_key(#[trigger] t.consumers[i])
                    &&& after.tasks[t.consumers[i]].deps.contains(other)
                } by {
                    assert(self.tasks.contains_key(before.consumers[i]));
                }
            }
            assert(after.locations_ok(other)) by {
                assert forall|i: int| 0 <= i < t.locations.len() implies {
                    &&& after.workers.contains_key(#[trigger] t.locations[i])
                    &&& after.workers[t.locations[i]].data.contains(other)
                } by {
                    let w = t.locations[i];
                    assert(t.locations.contains(w));
                    assert(before.locations.contains(w));
                    let j = choose|j: int| 0 <= j < before.locations.len() && before.locations[j] == w;
                    assert(self.workers.contains_key(before.locations[j]));
                    assert(self.workers[w].data.contains(other));
                }
            }
            assert(after.state_ok(other)) by {
                if t.on_worker() is Some {
                    let w = t.on_worker().unwrap();
                    assert(self.workers[w].tasks.contains(other));
                }
            }
        }
        assert forall|n: WorkerId| #[trigger] after.workers.contains_key(n) implies after.worker_ok(n) by {
            assert(self.worker_ok(n));
            let w = after.workers[n];
            assert forall|i: int| 0 <= i < w.tasks.len() implies {
                &&& after.tasks.contains_key(#[trigger] w.tasks[i])
                &&& after.tasks[w.tasks[i]].on_worker() == Some(n)
            } by {
                assert(self.tasks.contains_key(self.workers[n].tasks[i]));
            }
            assert forall|i: int| 0 <= i < w.data.len() implies {
                &&& after.tasks.contains_key(#[trigger] w.data[i])
                &&& after.tasks[w.data[i]].locations.contains(n)
            } by {
                let x = w.data[i];
                assert(w.data.contains(x));
                assert(self.workers[n].data.contains(x));
                let j = choose|j: int| 0 <= j < self.workers[n].data.len() && self.workers[n].data[j] == x;
                assert(self.tasks.contains_key(self.workers[n].data[j]));
                assert(self.tasks[x].locations.contains(n));
            }
        }
        assert forall|i: int| 0 <= i < after.ready.len() implies after.tasks.contains_key(
            #[trigger] after.ready[i],
        ) by {
            assert(self.tasks.contains_key(self.ready[i]));
        }
    }

    /// Losing the last location keeps the graph consistent, if no task that
    /// reads the result is assigned.
    pub proof fn lemma_unfinish(self, worker: WorkerId, id: TaskId)
        requires
            self.core_inv(),
            self.tasks.contains_key(id),
            self.tasks[id].locations.contains(worker),
            without(self.tasks[id].locations, worker).len() == 0,
            forall|i: int|
                0 <= i < self.tasks[id].consumers.len() ==> !(self.tasks[#[trigger] self.tasks[id].consumers[i]].state
                    is Assigned),
        ensures
            self.unfinish(worker, id).core_inv(),
            self.unfinish(worker, id).worker_order == self.worker_order,
            self.unfinish(worker, id).tasks.dom() == self.tasks.dom(),
    {
        reveal(SchedulerView::core_inv);
        let after = self.unfinish(worker, id);
        let task = self.tasks[id];
        let node = self.workers[worker];
        assert(self.task_ok(id));
        lemma_without(task.locations, worker);
        let k = choose|k: int| 0 <= k < task.locations.len() && task.locations[k] == worker;
        assert(self.workers.contains_key(task.locations[k]));
        assert(self.worker_ok(worker));
        lemma_without(node.data, id);
        lemma_without_all(self.ready, task.consumers);
        lemma_count_bound(task.deps, |d: TaskId| self.is_unfinished(d));
        assert(after.tasks.dom() =~= self.tasks.dom());
        assert(after.workers.dom() =~= self.workers.dom());
        // the only location was the worker
        assert forall|w: WorkerId| task.locations.contains(w) implies w == worker by {
            if w != worker {
                assert(without(task.locations, worker).contains(w));
                let j = choose|j: int|
                    0 <= j < without(task.locations, worker).len() && without(task.locations, worker)[j]
                        == w;
            }
        }
        assert(!task.consumers.contains(id)) by {
            if task.consumers.contains(id) {
                let j = choose|j: int| 0 <= j < task.consumers.len() && task.consumers[j] == id;
                assert(self.tasks[task.consumers[j]].deps.contains(id));
            }
        }
        assert(!self.ready.contains(id));
        let kept = without_all(self.ready, task.consumers);
        if self.state_after_loss(id) == TaskState::Waiting(0) {
            lemma_push_new(kept, id);
        }
        assert forall|other: TaskId| other != id implies (self.is_unfinished(other) == after.is_unfinished(
            other,
        )) by {}
        assert forall|other: TaskId| #[trigger] after.tasks.contains_key(other) implies after.task_ok(
            other,
        ) by {
            assert(self.task_ok(other));
            let before = self.tasks[other];
            let t = after.tasks[other];
            assert(t.deps == before.deps);
            assert(t.consumers == before.consumers);
            assert(after.links_ok(other)) by {
                assert forall|i: int| 0 <= i < t.deps.len() implies {
                    &&& after.tasks.contains_key(#[trigger] t.deps[i])
                    &&& after.tasks[t.deps[i]].consumers.contains(other)
                } by {
                    assert(self.tasks.contains_key(before.deps[i]));
                }
                assert forall|i: int| 0 <= i < t.consumers.len() implies {
                    &&& after.tasks.contains_key(#[trigger] t.consumers[i])
                    &&& after.tasks[t.consumers[i]].deps.contains(other)
                } by {
                    assert(self.tasks.contains_key(before.consumers[i]));
                }
            }
            assert(after.locations_ok(other)) by {
                if other != id {
                    assert forall|i: int| 0 <= i < t.locations.len() implies {
                        &&& after.workers.contains_key(#[trigger] t.locations[i])
                        &&& after.workers[t.locations[i]].data.contains(other)
                    } by {
                        let w = before.locations[i];
                        assert(self.workers.contains_key(w));
                        assert(self.workers[w].data.contains(other));
                    }
                }
            }
            assert(after.state_ok(other)) by {
                if other == id {
                    self.lemma_unfinished_same(after, before.deps);
                } else {
                    if before.deps.contains(id) {
                        assert(task.consumers.contains(other)) by {
                            let j = choose|j: int| 0 <= j < before.deps.len() && before.deps[j] == id;
                            assert(self.tasks[before.deps[j]].consumers.contains(other));
                        }
                        let c = choose|c: int| 0 <= c < task.consumers.len() && task.consumers[c] == other;
                        assert(!(self.tasks[task.consumers[c]].state is Assigned));
                        lemma_count_drop(
                            before.deps,
                            id,
                            |d: TaskId| after.is_unfinished(d),
                            |d: TaskId| self.is_unfinished(d),
                        );
                        lemma_count_bound(before.deps, |d: TaskId| after.is_unfinished(d));
                    } else {
                        assert(!task.consumers.contains(other)) by {
                            if task.consumers.contains(other) {
                                let j = choose|j: int|
                                    0 <= j < task.consumers.len() && task.consumers[j] == other;
                                assert(self.tasks[task.consumers[j]].deps.contains(id));
                            }
                        }
                        assert forall|i: int| 0 <= i < before.deps.len() implies self.is_unfinished(
                            #[trigger] before.deps[i],
                        ) == after.is_unfinished(before.deps[i]) by {
                            assert(before.deps.contains(before.deps[i]));
                        }
                        self.lemma_unfinished_same(after, before.deps);
                    }
                    if t.on_worker() is Some {
                        let w = t.on_worker().unwrap();
                        assert(self.workers[w].tasks.contains(other));
                    }
                }
            }
        }
        assert forall|n: WorkerId| #[trigger] after.workers.contains_key(n) implies after.worker_ok(n) by {
            assert(self.worker_ok(n));
            let w = after.workers[n];
            assert forall|i: int| 0 <= i < w.tasks.len() implies {
                &&& after.tasks.contains_key(#[trigger] w.tasks[i])
                &&& after.tasks[w.tasks[i]].on_worker() == Some(n)
            } by {
                let x = self.workers[n].tasks[i];
                assert(self.tasks.contains_key(x));
                assert(self.tasks[x].on_worker() == Some(n));
            }
            assert forall|i: int| 0 <= i < w.data.len() implies {
                &&& after.tasks.contains_key(#[trigger] w.data[i])
                &&& after.tasks[w.data[i]].locations.contains(n)
            } by {
                let x = w.data[i];
                assert(w.data.contains(x));
                assert(self.workers[n].data.contains(x));
                let j = choose|j: int| 0 <= j < self.workers[n].data.len() && self.workers[n].data[j] == x;
                assert(self.tasks.contains_key(self.workers[n].data[j]));
                assert(self.tasks[x].locations.contains(n));
            }
        }
        assert forall|i: int| 0 <= i < after.ready.len() implies after.tasks.contains_key(
            #[trigger] after.ready[i],
        ) by {
            let x = after.ready[i];
            assert(after.ready.contains(x));
            if x != id {
                assert(kept.contains(x));
                assert(self.ready.contains(x));
                let j = choose|j: int| 0 <= j < self.ready.len() && self.ready[j] == x;
                assert(self.tasks.contains_key(self.ready[j]));
            }
        }
    }

    /// Losing a location keeps the graph consistent.
    pub proof fn lemma_lose_location(self, worker: WorkerId, id: TaskId)
        requires
            self.core_inv(),
            self.tasks.contains_key(id),
            self.tasks[id].locations.contains(worker),
        ensures
            self.lose_location(worker, id).core_inv(),
            self.lose_location(worker, id).worker_order == self.worker_order,
            self.lose_location(worker, id).tasks.dom() == self.tasks.dom(),
            self.lose_location(worker, id).workers.dom() == self.workers.dom(),
            self.lose_location(worker, id).tasks[id].locations == without(
                self.tasks[id].locations,
                worker,
            ),
            forall|other: TaskId| #[trigger]
                self.tasks.contains_key(other) && other != id ==> self.lose_location(
                    worker,
                    id,
                ).settled_like(self, other),
            self.lose_location(worker, id).tasks[id].on_worker() is None,
            !(self.lose_location(worker, id).tasks[id].state is Erred),
    {
        let task = self.tasks[id];
        assert(self.task_ok(id)) by {
            reveal(SchedulerView::core_inv);
        }
        if without(task.locations, worker).len() > 0 {
            self.lemma_shrink(worker, id);
            assert(self.shrink(worker, id).tasks.dom() =~= self.tasks.dom());
            assert(self.shrink(worker, id).workers.dom() =~= self.workers.dom());
        } else {
            self.lemma_cancel_assigned(task.consumers);
            let cancelled = self.cancel_assigned(task.consumers);
            assert(cancelled.tasks[id] == task);
            cancelled.lemma_unfinish(worker, id);
            assert(cancelled.unfinish(worker, id).workers.dom() =~= cancelled.workers.dom());
            assert(cancelled.unfinish(worker, id).tasks[id].locations =~= without(
                task.locations,
                worker,
            ));
            assert forall|other: TaskId| #[trigger]
                self.tasks.contains_key(other) && other != id implies self.lose_location(
                worker,
                id,
            ).settled_like(self, other) by {
                assert(cancelled.settled_like(self, other));
            }
        }
    }

    /// The waiting tasks that read a finished task can wait for one
    /// dependency more, and the finished task does not read itself.
    pub proof fn lemma_consumers_of_finished(self, id: TaskId)
        requires
            self.core_inv(),
            self.tasks.contains_key(id),
            self.tasks[id].state is Finished,
        ensures
            self.tasks[id].consumers.no_duplicates(),
            !self.tasks[id].consumers.contains(id),
            forall|i: int|
                0 <= i < self.tasks[id].consumers.len() ==> {
                    &&& self.tasks.contains_key(#[trigger] self.tasks[id].consumers[i])
                    &&& self.tasks[self.tasks[id].consumers[i]].state matches TaskState::Waiting(n) ==> n
                        < usize::MAX
                },
    {
        reveal(SchedulerView::core_inv);
        assert(self.task_ok(id));
        let consumers = self.tasks[id].consumers;
        if consumers.contains(id) {
            let j = choose|j: int| 0 <= j < consumers.len() && consumers[j] == id;
            assert(self.tasks[consumers[j]].deps.contains(id));
        }
        assert forall|i: int| 0 <= i < consumers.len() implies {
            &&& self.tasks.contains_key(#[trigger] consumers[i])
            &&& self.tasks[consumers[i]].state matches TaskState::Waiting(n) ==> n < usize::MAX
        } by {
            let c = consumers[i];
            assert(self.tasks.contains_key(c));
            assert(self.task_ok(c));
            let deps = self.tasks[c].deps;
            if self.tasks[c].state is Waiting {
                let flipped = |d: TaskId| d == id || self.is_unfinished(d);
                lemma_count_drop(deps, id, flipped, |d: TaskId| self.is_unfinished(d));
                lemma_count_bound(deps, flipped);
            }
        }
    }

    /// The graph after each task of `list` has been taken back from its
    /// worker.
    pub open spec fn requeue_each(self, list: Seq<TaskId>) -> SchedulerView
        decreases list.len(),
    {
        if list.len() == 0 {
            self
        } else {
            self.requeue_each(list.drop_last()).requeue(list.last())
        }
    }

    /// The graph after `worker` has lost each result of `list`.
    pub open spec fn lose_data(self, worker: WorkerId, list: Seq<TaskId>) -> SchedulerView
        decreases list.len(),
    {
        if list.len() == 0 {
            self
        } else {
            self.lose_data(worker, list.drop_last()).lose_location(worker, list.last())
        }
    }

    /// The graph after the result of the task `id` has been lost by each
    /// worker of `list`.
    pub open spec fn lose_each(self, id: TaskId, list: Seq<WorkerId>) -> SchedulerView
        decreases list.len(),
    {
        if list.len() == 0 {
            self
        } else {
            self.lose_each(id, list.drop_last()).lose_location(list.last(), id)
        }
    }

    /// The graph without the worker `worker`.
    pub open spec fn without_worker(self, worker: WorkerId) -> SchedulerView {
        SchedulerView {
            workers: self.workers.remove(worker),
            worker_order: without(self.worker_order, worker),
            ..self
        }
    }

    /// Taking back the tasks of a worker keeps the graph consistent; the
    /// tasks that are on a worker afterwards were there before and are not
    /// of the list.
    pub proof fn lemma_requeue_each(self, list: Seq<TaskId>)
        requires
            self.core_inv(),
            list.no_duplicates(),
            forall|i: int|
                0 <= i < list.len() ==> self.tasks.contains_key(#[trigger] list[i])
                    && self.tasks[list[i]].on_worker() is Some,
        ensures
            self.requeue_each(list).core_inv(),
            self.requeue_each(list).worker_order == self.worker_order,
            self.requeue_each(list).tasks.dom() == self.tasks.dom(),
            self.requeue_each(list).workers.dom() == self.workers.dom(),
            forall|id: TaskId| #[trigger]
                self.tasks.contains_key(id) ==> self.requeue_each(list).settled_like(self, id),
            forall|id: TaskId|
                self.tasks.contains_key(id) && !list.contains(id) ==> #[trigger] self.requeue_each(
                    list,
                ).tasks[id] == self.tasks[id],
            forall|i: int|
                0 <= i < list.len() ==> self.requeue_each(list).tasks[#[trigger] list[i]].on_worker()
                    is None,
        decreases list.len(),
    {
        if list.len() > 0 {
            let rest = list.drop_last();
            let last = list.last();
            assert(list[list.len() - 1] == last);
            assert forall|i: int| 0 <= i < rest.len() implies self.tasks.contains_key(#[trigger] rest[i])
                && self.tasks[rest[i]].on_worker() is Some by {
                assert(rest[i] == list[i]);
            }
            self.lemma_requeue_each(rest);
            let before = self.requeue_each(rest);
            assert(!rest.contains(last)) by {
                if rest.contains(last) {
                    let i = choose|i: int| 0 <= i < rest.len() && rest[i] == last;
                    assert(list[i] == list[list.len() - 1]);
                }
            }
            assert(before.tasks[last] == self.tasks[last]);
            before.lemma_requeue(last);
            let after = self.requeue_each(list);
            assert forall|id: TaskId| list.contains(id) == (rest.contains(id) || id == last) by {
                if list.contains(id) {
                    let i = choose|i: int| 0 <= i < list.len() && list[i] == id;
                    if i < rest.len() {
                        assert(rest[i] == id);
                    }
                }
                if rest.contains(id) {
                    let i = choose|i: int| 0 <= i < rest.len() && rest[i] == id;
                    assert(list[i] == id);
                }
            }
            assert forall|id: TaskId| #[trigger] self.tasks.contains_key(id) implies after.settled_like(
                self,
                id,
            ) by {
                assert(before.settled_like(self, id));
            }
            assert forall|i: int| 0 <= i < list.len() implies after.tasks[#[trigger] list[i]].on_worker()
                is None by {
                if i < rest.len() {
                    assert(rest[i] == list[i]);
                    assert(before.tasks[rest[i]].on_worker() is None);
                }
            }
        }
    }

    /// Losing the results that a worker holds keeps the graph consistent;
    /// afterwards none of them is on that worker, and no task has come to a
    /// worker.
    pub proof fn lemma_lose_data(self, worker: WorkerId, list: Seq<TaskId>)
        requires
            self.core_inv(),
            list.no_duplicates(),
            forall|i: int|
                0 <= i < list.len() ==> self.tasks.contains_key(#[trigger] list[i])
                    && self.tasks[list[i]].locations.contains(worker),
        ensures
            self.lose_data(worker, list).core_inv(),
            self.lose_data(worker, list).worker_order == self.worker_order,
            self.lose_data(worker, list).tasks.dom() == self.tasks.dom(),
            self.lose_data(worker, list).workers.dom() == self.workers.dom(),
            forall|id: TaskId| #[trigger]
                self.tasks.contains_key(id) ==> {
                    &&& self.lose_data(worker, list).tasks[id].on_worker() is Some ==> self.lose_data(
                        worker,
                        list,
                    ).tasks[id].on_worker() == self.tasks[id].on_worker()
                    &&& self.lose_data(worker, list).tasks[id].locations == if list.contains(id) {
                        without(self.tasks[id].locations, worker)
                    } else {
                        self.tasks[id].locations
                    }
                    &&& self.lose_data(worker, list).tasks[id].state is Erred ==> self.tasks[id].state
                        is Erred
                },
        decreases list.len(),
    {
        if list.len() > 0 {
            let rest = list.drop_last();
            let last = list.last();
            assert(list[list.len() - 1] == last);
            assert forall|i: int| 0 <= i < rest.len() implies self.tasks.contains_key(#[trigger] rest[i])
                && self.tasks[rest[i]].locations.contains(worker) by {
                assert(rest[i] == list[i]);
            }
            self.lemma_lose_data(worker, rest);
            let before = self.lose_data(worker, rest);
            assert(!rest.contains(last)) by {
                if rest.contains(last) {
                    let i = choose|i: int| 0 <= i < rest.len() && rest[i] == last;
                    assert(list[i] == list[list.len() - 1]);
                }
            }
            assert(self.tasks.contains_key(last));
            assert(before.tasks[last].locations == self.tasks[last].locations);
            before.lemma_lose_location(worker, last);
            let after = self.lose_data(worker, list);
            assert forall|id: TaskId| list.contains(id) == (rest.contains(id) || id == last) by {
                if list.contains(id) {
                    let i = choose|i: int| 0 <= i < list.len() && list[i] == id;
                    if i < rest.len() {
                        assert(rest[i] == id);
                    }
                }
                if rest.contains(id) {
                    let i = choose|i: int| 0 <= i < rest.len() && rest[i] == id;
                    assert(list[i] == id);
                }
            }
            assert forall|id: TaskId| #[trigger] self.tasks.contains_key(id) implies {
                &&& after.tasks[id].on_worker() is Some ==> after.tasks[id].on_worker()
                    == self.tasks[id].on_worker()
                &&& after.tasks[id].locations == if list.contains(id) {
                    without(self.tasks[id].locations, worker)
                } else {
                    self.tasks[id].locations
                }
                &&& after.tasks[id].state is Erred ==> self.tasks[id].state is Erred
            } by {
                assert(before.tasks.contains_key(id));
                if id != last {
                    assert(after.settled_like(before, id));
                }
            }
        }
    }

    /// Losing the result of a task everywhere keeps the graph consistent;
    /// afterwards the task is not finished.
    pub proof fn lemma_lose_each(self, id: TaskId, list: Seq<WorkerId>)
        requires
            self.core_inv(),
            self.tasks.contains_key(id),
            list.no_duplicates(),
            forall|i: int| 0 <= i < list.len() ==> self.tasks[id].locations.contains(#[trigger] list[i]),
        ensures
            self.lose_each(id, list).core_inv(),
            self.lose_each(id, list).worker_order == self.worker_order,
            self.lose_each(id, list).tasks.dom() == self.tasks.dom(),
            self.lose_each(id, list).tasks[id].locations == without_all(self.tasks[id].locations, list),
            self.lose_each(id, list).tasks[id].state is Erred ==> self.tasks[id].state is Erred,
            forall|other: TaskId| #[trigger]
                self.tasks.contains_key(other) && other != id ==> self.lose_each(id, list).settled_like(
                    self,
                    other,
                ),
        decreases list.len(),
    {
        if list.len() > 0 {
            let rest = list.drop_last();
            let last = list.last();
            assert(list[list.len() - 1] == last);
            assert forall|i: int| 0 <= i < rest.len() implies self.tasks[id].locations.contains(
                #[trigger] rest[i],
            ) by {
                assert(rest[i] == list[i]);
            }
            self.lemma_lose_each(id, rest);
            let before = self.lose_each(id, rest);

            assert(!rest.contains(last)) by {
                if rest.contains(last) {
                    let i = choose|i: int| 0 <= i < rest.len() && rest[i] == last;
                    assert(list[i] == list[list.len() - 1]);
                }
            }
            lemma_without_all(self.tasks[id].locations, rest);
            assert(before.tasks[id].locations.contains(last));
            before.lemma_lose_location(last, id);
            let after = self.lose_each(id, list);
            assert forall|other: TaskId| #[trigger]
                self.tasks.contains_key(other) && other != id implies after.settled_like(self, other) by {
                assert(before.settled_like(self, other));
                assert(before.tasks.contains_key(other));
                assert(after.settled_like(before, other));
            }
        }
    }

    /// A worker that has no tasks and holds no results can go.
    pub proof fn lemma_without_worker(self, worker: WorkerId)
        requires
            self.core_inv(),
            self.workers.contains_key(worker),
            forall|id: TaskId| #[trigger]
                self.tasks.contains_key(id) ==> self.tasks[id].on_worker() != Some(worker)
                    && !self.tasks[id].locations.contains(worker),
        ensures
            self.without_worker(worker).core_inv(),
    {
        reveal(SchedulerView::core_inv);
        let after = self.without_worker(worker);
        lemma_without(self.worker_order, worker);
        assert forall|other: TaskId| self.is_unfinished(other) == after.is_unfinished(other) by {}
        assert forall|id: TaskId| #[trigger] after.tasks.contains_key(id) implies after.task_ok(id) by {
            assert(self.task_ok(id));
            let t = self.tasks[id];
            self.lemma_unfinished_same(after, t.deps);
            assert(after.links_ok(id));
            assert(after.state_ok(id));
            assert(after.locations_ok(id)) by {
                assert forall|i: int| 0 <= i < t.locations.len() implies {
                    &&& after.workers.contains_key(#[trigger] t.locations[i])
                    &&& after.workers[t.locations[i]].data.contains(id)
                } by {
                    assert(t.locations.contains(t.locations[i]));
                    assert(self.workers.contains_key(t.locations[i]));
                }
            }
        }
        assert forall|n: WorkerId| #[trigger] after.workers.contains_key(n) implies after.worker_ok(n) by {
            assert(self.worker_ok(n));
        }
        assert forall|i: int| 0 <= i < after.worker_order.len() implies after.workers.contains_key(
            #[trigger] after.worker_order[i],
        ) by {
            let w = after.worker_order[i];
            assert(after.worker_order.contains(w));
            assert(self.worker_order.contains(w));
            let k = choose|k: int| 0 <= k < self.worker_order.len() && self.worker_order[k] == w;
            assert(self.workers.contains_key(self.worker_order[k]));
        }
    }

    /// The scheduler after `worker` has dropped the result of the task `id`.
    /// A report about a result that the worker does not hold changes
    /// nothing.
    pub open spec fn data_removed(self, worker: WorkerId, id: TaskId) -> SchedulerView {
        if self.tasks.contains_key(id) && self.tasks[id].locations.contains(worker) {
            self.lose_location(worker, id).collect(self.tasks[id].consumers.push(id)).place_ready()
        } else {
            self
        }
    }

    /// The report that `worker` holds the result of the task `id` too can
    /// be taken in: the task is finished, the worker is known, and it is a
    /// new location.
    pub open spec fn replica_applies(self, worker: WorkerId, id: TaskId) -> bool {
        &&& self.tasks.contains_key(id)
        &&& self.tasks[id].state is Finished
        &&& self.workers.contains_key(worker)
        &&& !self.tasks[id].locations.contains(worker)
    }

    /// The scheduler after `worker` has fetched the result of the task `id`:
    /// the worker is one more location of the result.
    pub open spec fn data_downloaded(self, worker: WorkerId, id: TaskId) -> SchedulerView {
        if self.replica_applies(worker, id) {
            let task = self.tasks[id];
            let node = self.workers[worker];
            SchedulerView {
                tasks: self.tasks.insert(id, TaskView { locations: task.locations.push(worker), ..task }),
                workers: self.workers.insert(worker, WorkerView { data: node.data.push(id), ..node }),
                ..self
            }
        } else {
            self
        }
    }

    /// The scheduler after it has learnt that no worker has the result of
    /// the task `id`: the result is lost everywhere, and the task will run
    /// again unless the client has released it. For a task that is not
    /// finished nothing changes.
    pub open spec fn data_unavailable(self, id: TaskId) -> SchedulerView {
        if self.tasks.contains_key(id) && self.tasks[id].state is Finished {
            self.lose_each(id, self.tasks[id].locations).collect(
                self.tasks[id].consumers.push(id),
            ).place_ready()
        } else {
            self
        }
    }

    /// The scheduler after the worker `worker` is gone: its tasks wait again,
    /// the results it held are lost, and tasks that wait for nothing are
    /// placed on the workers that are left. For a worker that is not known
    /// nothing changes.
    pub open spec fn worker_lost(self, worker: WorkerId) -> SchedulerView {
        if self.workers.contains_key(worker) {
            let node = self.workers[worker];
            self.requeue_each(node.tasks).lose_data(worker, node.data).without_worker(worker).collect(
                node.tasks,
            ).place_ready()
        } else {
            self
        }
    }

    /// A dropped result keeps the scheduler consistent.
    pub proof fn lemma_data_removed(self, worker: WorkerId, id: TaskId)
        requires
            self.inv(),
        ensures
            self.data_removed(worker, id).inv(),
    {
        if self.tasks.contains_key(id) && self.tasks[id].locations.contains(worker) {
            self.lemma_lose_location(worker, id);
            let lost = self.lose_location(worker, id);
            lost.lemma_collect(self.tasks[id].consumers.push(id));
            lost.collect(self.tasks[id].consumers.push(id)).lemma_place_ready();
        }
    }

    /// A new location keeps the scheduler consistent.
    pub proof fn lemma_data_downloaded(self, worker: WorkerId, id: TaskId)
        requires
            self.inv(),
        ensures
            self.data_downloaded(worker, id).inv(),
    {
        reveal(SchedulerView::core_inv);
        if self.replica_applies(worker, id) {
            let after = self.data_downloaded(worker, id);
            let task = self.tasks[id];
            let node = self.workers[worker];
            assert(self.task_ok(id));
            assert(self.worker_ok(worker));
            lemma_push_new(task.locations, worker);
            assert(!node.data.contains(id)) by {
                if node.data.contains(id) {
                    let i = choose|i: int| 0 <= i < node.data.len() && node.data[i] == id;
                    assert(self.tasks[node.data[i]].locations.contains(worker));
                }
            }
            lemma_push_new(node.data, id);
            assert(after.tasks.dom() =~= self.tasks.dom());
            assert(after.workers.dom() =~= self.workers.dom());
            assert forall|other: TaskId| self.is_unfinished(other) == after.is_unfinished(other) by {}
            assert forall|other: TaskId| #[trigger] after.tasks.contains_key(other) implies after.task_ok(
                other,
            ) by {
                assert(self.task_ok(other));
                let before = self.tasks[other];
                let t = after.tasks[other];
                self.lemma_unfinished_same(after, before.deps);
                assert(after.links_ok(other)) by {
                    assert forall|i: int| 0 <= i < t.deps.len() implies {
                        &&& after.tasks.contains_key(#[trigger] t.deps[i])
                        &&& after.tasks[t.deps[i]].consumers.contains(other)
                    } by {
                        assert(self.tasks.contains_key(before.deps[i]));
                    }
                    assert forall|i: int| 0 <= i < t.consumers.len() implies {
                        &&& after.tasks.contains_key(#[trigger] t.consumers[i])
                        &&& after.tasks[t.consumers[i]].deps.contains(other)
                    } by {
                        assert(self.tasks.contains_key(before.consumers[i]));
                    }
                }
                assert(after.locations_ok(other)) by {
                    assert forall|i: int| 0 <= i < t.locations.len() implies {
                        &&& after.workers.contains_key(#[trigger] t.locations[i])
                        &&& after.workers[t.locations[i]].data.contains(other)
                    } by {
                        if other == id && i == task.locations.len() {
                        } else {
                            let w = before.locations[i];
                            assert(self.workers.contains_key(w));
                            assert(self.workers[w].data.contains(other));
                        }
                    }
                }
                assert(after.state_ok(other)) by {
                    if t.on_worker() is Some {
                        let w = t.on_worker().unwrap();
                        assert(self.workers[w].tasks.contains(other));
                    }
                }
            }
            assert forall|n: WorkerId| #[trigger] after.workers.contains_key(n) implies after.worker_ok(
                n,
            ) by {
                assert(self.worker_ok(n));
                let w = after.workers[n];
                assert forall|i: int| 0 <= i < w.tasks.len() implies {
                    &&& after.tasks.contains_key(#[trigger] w.tasks[i])
                    &&& after.tasks[w.tasks[i]].on_worker() == Some(n)
                } by {
                    assert(self.tasks.contains_key(self.workers[n].tasks[i]));
                }
                assert forall|i: int| 0 <= i < w.data.len() implies {
                    &&& after.tasks.contains_key(#[trigger] w.data[i])
                    &&& after.tasks[w.data[i]].locations.contains(n)
                } by {
                    if n == worker && i == node.data.len() {
                    } else {
                        let x = self.workers[n].data[i];
                        assert(self.tasks.contains_key(x));
                        assert(self.tasks[x].locations.contains(n));
                    }
                }
            }
            assert forall|i: int| 0 <= i < after.ready.len() implies after.tasks.contains_key(
                #[trigger] after.ready[i],
            ) by {
                assert(self.tasks.contains_key(self.ready[i]));
            }
        }
    }

    /// A result that is lost everywhere keeps the scheduler consistent.
    pub proof fn lemma_data_unavailable(self, id: TaskId)
        requires
            self.inv(),
        ensures
            self.data_unavailable(id).inv(),
    {
        if self.tasks.contains_key(id) && self.tasks[id].state is Finished {
            assert(self.task_ok(id)) by {
                reveal(SchedulerView::core_inv);
            }
            self.lemma_lose_each(id, self.tasks[id].locations);
            let lost = self.lose_each(id, self.tasks[id].locations);
            lost.lemma_collect(self.tasks[id].consumers.push(id));
            lost.collect(self.tasks[id].consumers.push(id)).lemma_place_ready();
        }
    }

    /// The steps that follow the loss of a worker keep the graph
    /// consistent.
    pub proof fn lemma_worker_gone(self, worker: WorkerId)
        requires
            self.core_inv(),
            self.workers.contains_key(worker),
        ensures
            self.requeue_each(self.workers[worker].tasks).core_inv(),
            self.requeue_each(self.workers[worker].tasks).lose_data(
                worker,
                self.workers[worker].data,
            ).core_inv(),
            self.requeue_each(self.workers[worker].tasks).lose_data(
                worker,
                self.workers[worker].data,
            ).without_worker(worker).core_inv(),
            forall|i: int|
                0 <= i < self.workers[worker].tasks.len() ==> self.tasks.contains_key(
                    #[trigger] self.workers[worker].tasks[i],
                ) && self.tasks[self.workers[worker].tasks[i]].on_worker() is Some,
            forall|i: int|
                0 <= i < self.workers[worker].data.len() ==> self.tasks.contains_key(
                    #[trigger] self.workers[worker].data[i],
                ) && self.tasks[self.workers[worker].data[i]].locations.contains(worker),
            self.workers[worker].tasks.no_duplicates(),
            self.workers[worker].data.no_duplicates(),
    {
        let node = self.workers[worker];
        assert(self.worker_ok(worker)) by {
            reveal(SchedulerView::core_inv);
        }
        self.lemma_requeue_each(node.tasks);
        let requeued = self.requeue_each(node.tasks);
        assert forall|i: int| 0 <= i < node.data.len() implies requeued.tasks.contains_key(
            #[trigger] node.data[i],
        ) && requeued.tasks[node.data[i]].locations.contains(worker) by {
            assert(self.tasks.contains_key(node.data[i]));
            assert(requeued.settled_like(self, node.data[i]));
        }
        requeued.lemma_lose_data(worker, node.data);
        let lost = requeued.lose_data(worker, node.data);
        assert forall|id: TaskId| #[trigger] lost.tasks.contains_key(id) implies lost.tasks[id].on_worker()
            != Some(worker) && !lost.tasks[id].locations.contains(worker) by {
            reveal(SchedulerView::core_inv);
            assert(self.tasks.contains_key(id));
            assert(requeued.tasks.contains_key(id));
            assert(self.task_ok(id));
            assert(requeued.settled_like(self, id));
            if self.tasks[id].on_worker() == Some(worker) {
                assert(node.tasks.contains(id));
                let i = choose|i: int| 0 <= i < node.tasks.len() && node.tasks[i] == id;
                assert(requeued.tasks[node.tasks[i]].on_worker() is None);
            }
            if node.data.contains(id) {
                lemma_without(requeued.tasks[id].locations, worker);
            } else {
                if self.tasks[id].locations.contains(worker) {
                    let k = choose|k: int|
                        0 <= k < self.tasks[id].locations.len() && self.tasks[id].locations[k] == worker;
                    assert(self.workers[self.tasks[id].locations[k]].data.contains(id));
                }
            }
        }
        lost.lemma_without_worker(worker);
    }

    /// A lost worker keeps the scheduler consistent.
    pub proof fn lemma_worker_lost(self, worker: WorkerId)
        requires
            self.inv(),
        ensures
            self.worker_lost(worker).inv(),
    {
        if self.workers.contains_key(worker) {
            self.lemma_worker_gone(worker);
            let node = self.workers[worker];
            let gone = self.requeue_each(node.tasks).lose_data(worker, node.data).without_worker(worker);
            gone.lemma_collect(node.tasks);
            gone.collect(node.tasks).lemma_place_ready();
        }
    }
}

} // verus!
