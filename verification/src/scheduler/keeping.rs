//! No task leaves the graph unless the client has released it.

use crate::common::{TaskId, WorkerId};
use crate::scheduler::messages::EventView;
use crate::scheduler::model::SchedulerView;
use crate::scheduler::stealing::StealCommand;
use crate::worker::messages::StealResponse;
use vstd::prelude::*;

verus! {

/// From `before` to `after` the task `id` has stayed in the graph, released
/// by the client or not as it was.
pub open spec fn kept(before: SchedulerView, after: SchedulerView, id: TaskId) -> bool {
    before.tasks.contains_key(id) ==> after.tasks.contains_key(id) && after.tasks[id].released
        == before.tasks[id].released
}

impl SchedulerView {
    /// Cancelling assigned tasks keeps every task.
    pub proof fn lemma_cancel_assigned_keeps(self, list: Seq<TaskId>, id: TaskId)
        ensures
            kept(self, self.cancel_assigned(list), id),
        decreases list.len(),
    {
        if list.len() > 0 {
            self.lemma_cancel_assigned_keeps(list.drop_last(), id);
        }
    }

    /// The loss of a location keeps every task.
    pub proof fn lemma_lose_location_keeps(self, worker: WorkerId, task: TaskId, id: TaskId)
        ensures
            kept(self, self.lose_location(worker, task), id),
    {
        self.lemma_cancel_assigned_keeps(self.tasks[task].consumers, id);
    }

    /// The loss of a result everywhere keeps every task.
    pub proof fn lemma_lose_each_keeps(self, task: TaskId, list: Seq<WorkerId>, id: TaskId)
        ensures
            kept(self, self.lose_each(task, list), id),
        decreases list.len(),
    {
        if list.len() > 0 {
            self.lemma_lose_each_keeps(task, list.drop_last(), id);
            self.lose_each(task, list.drop_last()).lemma_lose_location_keeps(list.last(), task, id);
        }
    }

    /// The loss of the results that a worker held keeps every task.
    pub proof fn lemma_lose_data_keeps(self, worker: WorkerId, list: Seq<TaskId>, id: TaskId)
        ensures
            kept(self, self.lose_data(worker, list), id),
        decreases list.len(),
    {
        if list.len() > 0 {
            self.lemma_lose_data_keeps(worker, list.drop_last(), id);
            self.lose_data(worker, list.drop_last()).lemma_lose_location_keeps(worker, list.last(), id);
        }
    }

    /// Taking tasks back from a worker keeps every task.
    pub proof fn lemma_requeue_each_keeps(self, list: Seq<TaskId>, id: TaskId)
        ensures
            kept(self, self.requeue_each(list), id),
        decreases list.len(),
    {
        if list.len() > 0 {
            self.lemma_requeue_each_keeps(list.drop_last(), id);
        }
    }

    /// The spreading of a failure keeps every task.
    pub proof fn lemma_fail_all_keeps_tasks(self, work: Seq<TaskId>, id: TaskId)
        requires
            self.tasks.dom().finite(),
        ensures
            kept(self, self.fail_all(work), id),
        decreases self.unfinished_set().len(), work.len(),
    {
        if work.len() > 0 {
            let failed = work.last();
            let rest = work.drop_last();
            if self.tasks.contains_key(failed) && self.tasks[failed].unfinished() {
                assert(self.unfinished_set().subset_of(self.tasks.dom()));
                vstd::set_lib::lemma_len_subset(self.unfinished_set(), self.tasks.dom());
                assert(self.fail(failed).unfinished_set() =~= self.unfinished_set().remove(failed));
                assert(self.fail(failed).tasks.dom() =~= self.tasks.dom());
                self.fail(failed).lemma_fail_all_keeps_tasks(rest + self.tasks[failed].consumers, id);
            } else {
                self.lemma_fail_all_keeps_tasks(rest, id);
            }
        }
    }

    /// Immediate placement keeps every task.
    pub proof fn lemma_place_ready_keeps(self, id: TaskId)
        ensures
            kept(self, self.place_ready(), id),
        decreases self.ready.len(),
    {
        if self.worker_order.len() == 0 || self.ready.len() == 0 {
        } else {
            let next = self.place_first();
            assert(kept(self, next, id));
            if next.ready.len() < self.ready.len() {
                next.lemma_place_ready_keeps(id);
            }
        }
    }

    /// Starting steals keeps every task.
    pub proof fn lemma_start_steals_keeps(self, plan: Seq<StealCommand>, id: TaskId)
        ensures
            kept(self, self.start_steals(plan), id),
        decreases plan.len(),
    {
        if plan.len() > 0 {
            self.lemma_start_steals_keeps(plan.drop_last(), id);
        }
    }

    /// What follows the first step of an event, dropping what needs no
    /// keeping and placing what is ready, keeps every task that the client
    /// has not released.
    pub proof fn lemma_cleanup_keeps(self, work: Seq<TaskId>, id: TaskId)
        requires
            self.core_inv(),
            self.tasks.contains_key(id),
            !self.tasks[id].released,
        ensures
            kept(self, self.collect(work).place_ready(), id),
    {
        self.lemma_collect_keeps(work, id);
        self.collect(work).lemma_place_ready_keeps(id);
    }

    /// The end of a task keeps every task that the client has not
    /// released.
    pub proof fn lemma_task_finished_keeps(self, worker: WorkerId, done: TaskId, size: u64, id: TaskId)
        requires
            self.inv(),
            self.tasks.contains_key(id),
            !self.tasks[id].released,
        ensures
            kept(self, self.task_finished(worker, done, size), id),
    {
        if self.finish_applies(worker, done) {
            self.lemma_mark_finished(worker, done, size);
            let ended = self.mark_finished(worker, done, size);
            assert(kept(self, ended, id));
            ended.lemma_cleanup_keeps(self.tasks[done].deps.push(done), id);
        }
    }

    /// The failure of a task keeps every task that the client has not
    /// released.
    pub proof fn lemma_task_erred_keeps_tasks(self, worker: WorkerId, failed: TaskId, id: TaskId)
        requires
            self.inv(),
            self.tasks.contains_key(id),
            !self.tasks[id].released,
        ensures
            kept(self, self.task_erred(worker, failed), id),
    {
        if self.finish_applies(worker, failed) {
            self.lemma_task(failed);
            self.lemma_fail(failed);
            let marked = self.mark_erred(failed);
            assert(kept(self, marked, id));
            assert(marked.tasks.dom().finite()) by {
                reveal(SchedulerView::core_inv);
            }
            marked.lemma_fail_all(self.tasks[failed].consumers);
            marked.lemma_fail_all_keeps_tasks(self.tasks[failed].consumers, id);
            marked.fail_all(self.tasks[failed].consumers).lemma_cleanup_keeps(
                Seq::empty().push(failed),
                id,
            );
        }
    }

    /// The answer to a steal keeps every task.
    pub proof fn lemma_steal_response_keeps(
        self,
        worker: WorkerId,
        stolen: TaskId,
        response: StealResponse,
        id: TaskId,
    )
        ensures
            kept(self, self.task_steal_response(worker, stolen, response), id),
    {
        if self.steal_applies(worker, stolen) && response == StealResponse::Success {
            assert(kept(self, self.stolen(stolen), id));
            self.stolen(stolen).lemma_place_ready_keeps(id);
        }
    }

    /// The loss of a copy, or of every copy, of a result keeps every task
    /// that the client has not released.
    pub proof fn lemma_lost_data_keeps(self, event: EventView, id: TaskId)
        requires
            self.inv(),
            event is DataRemoved || event is DataUnavailable,
            self.tasks.contains_key(id),
            !self.tasks[id].released,
        ensures
            kept(self, self.step(event), id),
    {
        match event {
            EventView::DataRemoved { worker, id: dropped } => {
                if self.tasks.contains_key(dropped) && self.tasks[dropped].locations.contains(worker) {
                    self.lemma_lose_location(worker, dropped);
                    self.lemma_lose_location_keeps(worker, dropped, id);
                    self.lose_location(worker, dropped).lemma_cleanup_keeps(
                        self.tasks[dropped].consumers.push(dropped),
                        id,
                    );
                }
            },
            EventView::DataUnavailable { id: lost } => {
                if self.tasks.contains_key(lost) && self.tasks[lost].state is Finished {
                    self.lemma_task(lost);
                    self.lemma_lose_each(lost, self.tasks[lost].locations);
                    self.lemma_lose_each_keeps(lost, self.tasks[lost].locations, id);
                    self.lose_each(lost, self.tasks[lost].locations).lemma_cleanup_keeps(
                        self.tasks[lost].consumers.push(lost),
                        id,
                    );
                }
            },
            _ => {},
        }
    }

    /// The loss of a worker keeps every task that the client has not
    /// released.
    pub proof fn lemma_worker_lost_keeps(self, worker: WorkerId, id: TaskId)
        requires
            self.inv(),
            self.tasks.contains_key(id),
            !self.tasks[id].released,
        ensures
            kept(self, self.worker_lost(worker), id),
    {
        if self.workers.contains_key(worker) {
            self.lemma_worker_gone(worker);
            let node = self.workers[worker];
            let requeued = self.requeue_each(node.tasks);
            self.lemma_requeue_each_keeps(node.tasks, id);
            requeued.lemma_lose_data_keeps(worker, node.data, id);
            let gone = requeued.lose_data(worker, node.data).without_worker(worker);
            assert(kept(self, gone, id));
            gone.lemma_cleanup_keeps(node.tasks, id);
        }
    }

    /// The release of another task keeps every task that the client has
    /// not released.
    pub proof fn lemma_client_release_keeps(self, released: TaskId, id: TaskId)
        requires
            self.inv(),
            self.tasks.contains_key(id),
            !self.tasks[id].released,
            released != id,
        ensures
            kept(self, self.client_release(released), id),
    {
        if self.tasks.contains_key(released) {
            self.lemma_client_release(released);
            let marked = self.mark_released(released);
            assert(kept(self, marked, id));
            marked.lemma_cleanup_keeps(Seq::empty().push(released), id);
        }
    }

    /// Nothing is dropped that the client still wants: a task that the
    /// client has not released is in the graph after every event but its
    /// own release, and is not released then.
    pub proof fn lemma_unreleased_stays(self, event: EventView, id: TaskId)
        requires
            self.inv(),
            event matches EventView::TaskSubmit { deps, .. } ==> deps.len() <= usize::MAX,
            self.tasks.contains_key(id),
            !self.tasks[id].released,
            event != (EventView::ClientRelease { id }),
        ensures
            self.step(event).tasks.contains_key(id),
            !self.step(event).tasks[id].released,
    {
        match event {
            EventView::TaskSubmit { id: new, deps, priority, size } => {
                if self.submit_applies(new, deps) {
                    let entered = self.enter_task(new, deps, priority, size);
                    assert(kept(self, entered, id));
                    entered.lemma_place_ready_keeps(id);
                }
            },
            EventView::TaskFinished { worker, id: done, size } => {
                self.lemma_task_finished_keeps(worker, done, size, id);
            },
            EventView::TaskErred { worker, id: failed } => {
                self.lemma_task_erred_keeps_tasks(worker, failed, id);
            },
            EventView::TaskStealResponse { worker, id: stolen, response } => {
                self.lemma_steal_response_keeps(worker, stolen, response, id);
            },
            EventView::DataRemoved { .. } => {
                self.lemma_lost_data_keeps(event, id);
            },
            EventView::DataDownloaded { .. } => {},
            EventView::DataUnavailable { .. } => {
                self.lemma_lost_data_keeps(event, id);
            },
            EventView::WorkerAdded { id: worker, address, ncpus } => {
                if !self.workers.contains_key(worker) {
                    self.joined(worker, address, ncpus).lemma_place_ready_keeps(id);
                }
            },
            EventView::WorkerLost { id: worker } => {
                self.lemma_worker_lost_keeps(worker, id);
            },
            EventView::ClientRelease { id: released } => {
                self.lemma_client_release_keeps(released, id);
            },
            EventView::Tick => {
                self.lemma_start_steals_keeps(self.rebalance(), id);
            },
        }
    }
}

} // verus!
