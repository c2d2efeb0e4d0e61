//! What the scheduler does when a task fails.

use crate::common::{TaskId, WorkerId};
use crate::idlist::{lemma_without, without};
use crate::scheduler::messages::OutputView;
use crate::scheduler::model::SchedulerView;
use crate::scheduler::node::WorkerView;
use crate::scheduler::task::{TaskState, TaskView};
use vstd::prelude::*;

verus! {

impl SchedulerView {
    /// The workers after the task `id` has left the worker it was on, if it
    /// was on one.
    pub open spec fn released_from_worker(self, id: TaskId) -> Map<WorkerId, WorkerView> {
        match self.tasks[id].on_worker() {
            Some(worker) => self.workers.insert(
                worker,
                WorkerView { tasks: without(self.workers[worker].tasks, id), ..self.workers[worker] },
            ),
            None => self.workers,
        }
    }

    /// The graph after the task `id`, which had still to be done, has been
    /// marked as failed.
    pub open spec fn mark_erred(self, id: TaskId) -> SchedulerView {
        SchedulerView {
            tasks: self.tasks.insert(
                id,
                TaskView { state: TaskState::Erred, steal_target: None, ..self.tasks[id] },
            ),
            workers: self.released_from_worker(id),
            ready: without(self.ready, id),
            ..self
        }
    }

    /// The graph after the task `id` has been marked as failed because a
    /// task that it reads has failed; the worker it was on is told to drop
    /// it.
    pub open spec fn fail(self, id: TaskId) -> SchedulerView {
        SchedulerView {
            outbox: match self.tasks[id].on_worker() {
                Some(worker) => self.outbox.push(OutputView::RemoveTask { worker, task: id }),
                None => self.outbox,
            },
            ..self.mark_erred(id)
        }
    }

    /// The tasks that have still to be done.
    pub open spec fn unfinished_set(self) -> Set<TaskId> {
        Set::new(|id: TaskId| self.tasks.contains_key(id) && self.tasks[id].unfinished())
    }

    /// The graph after the failure has spread from the tasks of `work`, last
    /// first: a task that had still to be done is marked as failed, and
    /// the tasks that read it are looked at in turn.
    pub open spec fn fail_all(self, work: Seq<TaskId>) -> SchedulerView
        decreases self.unfinished_set().len(), work.len(),
        when self.tasks.dom().finite()
    {
        if work.len() == 0 {
            self
        } else {
            let id = work.last();
            let rest = work.drop_last();
            if self.tasks.contains_key(id) && self.tasks[id].unfinished() {
                proof {
                    assert(self.unfinished_set().subset_of(self.tasks.dom()));
                    vstd::set_lib::lemma_len_subset(self.unfinished_set(), self.tasks.dom());
                    assert(self.fail(id).unfinished_set() =~= self.unfinished_set().remove(id));
                    assert(self.fail(id).tasks.dom() =~= self.tasks.dom());
                }
                self.fail(id).fail_all(rest + self.tasks[id].consumers)
            } else {
                self.fail_all(rest)
            }
        }
    }

    /// The scheduler after the task `id` has failed on `worker`: the task
    /// and every task that reads its result, directly or through others,
    /// and has still to be done will not run; those that are on a worker
    /// are cancelled. A report about a task that is not on the worker
    /// changes nothing.
    pub open spec fn task_erred(self, worker: WorkerId, id: TaskId) -> SchedulerView {
        if self.finish_applies(worker, id) {
            self.mark_erred(id).fail_all(self.tasks[id].consumers).collect(
                Seq::empty().push(id),
            ).place_ready()
        } else {
            self
        }
    }

    /// Marking a task that had still to be done as failed keeps the graph
    /// consistent, and touches no other task.
    pub proof fn lemma_fail(self, id: TaskId)
        requires
            self.core_inv(),
            self.tasks.contains_key(id),
            self.tasks[id].unfinished(),
        ensures
            self.mark_erred(id).core_inv(),
            self.fail(id).core_inv(),
            self.fail(id).tasks == self.mark_erred(id).tasks,
            self.fail(id).worker_order == self.worker_order,
            self.mark_erred(id).worker_order == self.worker_order,
            self.mark_erred(id).tasks.dom() == self.tasks.dom(),
            forall|i: int|
                0 <= i < self.tasks[id].consumers.len() ==> self.tasks.contains_key(
                    #[trigger] self.tasks[id].consumers[i],
                ),
    {
        reveal(SchedulerView::core_inv);
        let after = self.mark_erred(id);
        let task = self.tasks[id];
        assert(self.task_ok(id));
        lemma_without(self.ready, id);
        assert(after.tasks.dom() =~= self.tasks.dom());
        if task.on_worker() is Some {
            let worker = task.on_worker().unwrap();
            assert(self.worker_ok(worker));
            lemma_without(self.workers[worker].tasks, id);
        }
        assert(after.workers.dom() =~= self.workers.dom());
        assert forall|other: TaskId| self.is_unfinished(other) == after.is_unfinished(other) by {}
        assert forall|other: TaskId| #[trigger] after.tasks.contains_key(other) implies after.task_ok(
            other,
        ) by {
            assert(self.task_ok(other));
            let before = self.tasks[other];
            let t = after.tasks[other];
            self.lemma_unfinished_same(after, before.deps);
            assert(after.links_ok(other)) by {
                assert forall|i: int| 0 <= i < t.deps.len() implies {
                    &&& after.tasks.contains_key(#[trigger] t.deps[i])
                    &&& after.tasks[t.deps[i]].consumers.contains(other)
                } by {
                    assert(self.tasks.contains_key(before.deps[i]));
                }
                assert forall|i: int| 0 <= i < t.consumers.len() implies {
                    &&& after.tasks.contains_key(#[trigger] t.consumers[i])
                    &&& after.tasks[t.consumers[i]].deps.contains(other)
                } by {
                    assert(self.tasks.contains_key(before.consumers[i]));
                }
            }
            assert(after.locations_ok(other)) by {
                assert forall|i: int| 0 <= i < t.locations.len() implies {
                    &&& after.workers.contains_key(#[trigger] t.locations[i])
                    &&& after.workers[t.locations[i]].data.contains(other)
                } by {
                    assert(self.workers.contains_key(before.locations[i]));
                }
            }
            assert(after.state_ok(other)) by {
                if other != id && t.on_worker() is Some {
                    let w = t.on_worker().unwrap();
                    assert(self.workers[w].tasks.contains(other));
                }
            }
        }
        assert forall|n: WorkerId| #[trigger] after.workers.contains_key(n) implies after.worker_ok(n) by {
            assert(self.worker_ok(n));
            let w = after.workers[n];
            assert forall|i: int| 0 <= i < w.tasks.len() implies {
                &&& after.tasks.contains_key(#[trigger] w.tasks[i])
                &&& after.tasks[w.tasks[i]].on_worker() == Some(n)
            } by {
                let x = w.tasks[i];
                assert(w.tasks.contains(x));
                assert(self.workers[n].tasks.contains(x));
                let k = choose|k: int| 0 <= k < self.workers[n].tasks.len() && self.workers[n].tasks[k] == x;
                assert(self.tasks.contains_key(self.workers[n].tasks[k]));
                assert(self.tasks[x].on_worker() == Some(n));
            }
            assert forall|i: int| 0 <= i < w.data.len() implies {
                &&& after.tasks.contains_key(#[trigger] w.data[i])
                &&& after.tasks[w.data[i]].locations.contains(n)
            } by {
                assert(self.tasks.contains_key(self.workers[n].data[i]));
            }
        }
        assert forall|i: int| 0 <= i < after.ready.len() implies after.tasks.contains_key(
            #[trigger] after.ready[i],
        ) by {
            let x = after.ready[i];
            assert(after.ready.contains(x));
            assert(self.ready.contains(x));
            let j = choose|j: int| 0 <= j < self.ready.len() && self.ready[j] == x;
            assert(self.tasks.contains_key(self.ready[j]));
        }
        assert(after.core_inv());
        let failed = self.fail(id);
        assert(failed.core_inv()) by {
            assert forall|other: TaskId| after.is_unfinished(other) == failed.is_unfinished(other) by {}
            assert forall|other: TaskId| #[trigger] failed.tasks.contains_key(other) implies failed.task_ok(
                other,
            ) by {
                assert(after.task_ok(other));
                after.lemma_unfinished_same(failed, after.tasks[other].deps);
            }
            assert forall|n: WorkerId| #[trigger] failed.workers.contains_key(n) implies failed.worker_ok(
                n,
            ) by {
                assert(after.worker_ok(n));
            }
        }
    }

    /// The spreading of a failure keeps the graph consistent.
    pub proof fn lemma_fail_all(self, work: Seq<TaskId>)
        requires
            self.core_inv(),
        ensures
            self.fail_all(work).core_inv(),
            self.fail_all(work).worker_order == self.worker_order,
            self.fail_all(work).tasks.dom() == self.tasks.dom(),
        decreases self.unfinished_set().len(), work.len(),
    {
        assert(self.tasks.dom().finite()) by {
            reveal(SchedulerView::core_inv);
        }
        if work.len() > 0 {
            let id = work.last();
            let rest = work.drop_last();
            if self.tasks.contains_key(id) && self.tasks[id].unfinished() {
                self.lemma_fail(id);
                assert(self.unfinished_set().subset_of(self.tasks.dom()));
                vstd::set_lib::lemma_len_subset(self.unfinished_set(), self.tasks.dom());
                assert(self.fail(id).unfinished_set() =~= self.unfinished_set().remove(id));
                assert(self.fail(id).tasks.dom() =~= self.tasks.dom());
                self.fail(id).lemma_fail_all(rest + self.tasks[id].consumers);
            } else {
                self.lemma_fail_all(rest);
            }
        }
    }

    /// A failed task keeps the scheduler consistent.
    pub proof fn lemma_task_erred(self, worker: WorkerId, id: TaskId)
        requires
            self.inv(),
        ensures
            self.task_erred(worker, id).inv(),
    {
        if self.finish_applies(worker, id) {
            self.lemma_fail(id);
            let marked = self.mark_erred(id);
            marked.lemma_fail_all(self.tasks[id].consumers);
            let spread = marked.fail_all(self.tasks[id].consumers);
            spread.lemma_collect(Seq::empty().push(id));
            spread.collect(Seq::empty().push(id)).lemma_place_ready();
        }
    }
}

} // verus!
