//! What the scheduler writes: events only add to the outbox, and a task
//! that is sent to a worker is with that worker.

use crate::common::{TaskId, WorkerId};
use crate::scheduler::messages::{EventView, OutputView};
use crate::scheduler::model::SchedulerView;
use crate::scheduler::stealing::StealCommand;
use crate::scheduler::task::TaskState;
use crate::worker::messages::StealResponse;
use vstd::prelude::*;

verus! {

/// The output at position `at` sends a task to a worker, and the task is
/// assigned to that worker.
pub open spec fn sent_at(state: SchedulerView, at: int) -> bool {
    &&& 0 <= at < state.outbox.len()
    &&& state.outbox[at] matches OutputView::Assign { worker, task, .. }
    &&& state.tasks.contains_key(task)
    &&& state.tasks[task].state == TaskState::Assigned(worker)
}

/// From `before` to `after` the outbox has only grown, and not by an output
/// that sends a task to a worker.
pub open spec fn sends_nothing(before: SchedulerView, after: SchedulerView) -> bool {
    &&& before.outbox.is_prefix_of(after.outbox)
    &&& forall|at: int|
        before.outbox.len() <= at < after.outbox.len() ==> !(#[trigger] after.outbox[at] is Assign)
}

/// Sending nothing twice is sending nothing.
pub proof fn lemma_sends_nothing_twice(first: SchedulerView, second: SchedulerView, third: SchedulerView)
    requires
        sends_nothing(first, second),
        sends_nothing(second, third),
    ensures
        sends_nothing(first, third),
{
    assert forall|at: int| first.outbox.len() <= at < third.outbox.len() implies !(
    #[trigger] third.outbox[at] is Assign) by {
        if at < second.outbox.len() {
            assert(third.outbox[at] == second.outbox[at]);
        }
    }
}

impl SchedulerView {
    /// Cancelling assigned tasks sends nothing.
    pub proof fn lemma_cancel_assigned_sends_nothing(self, list: Seq<TaskId>)
        ensures
            sends_nothing(self, self.cancel_assigned(list)),
        decreases list.len(),
    {
        if list.len() > 0 {
            let before = self.cancel_assigned(list.drop_last());
            self.lemma_cancel_assigned_sends_nothing(list.drop_last());
            assert(sends_nothing(before, self.cancel_assigned(list)));
            lemma_sends_nothing_twice(self, before, self.cancel_assigned(list));
        }
    }

    /// The loss of a location sends nothing.
    pub proof fn lemma_lose_location_sends_nothing(self, worker: WorkerId, id: TaskId)
        ensures
            sends_nothing(self, self.lose_location(worker, id)),
    {
        self.lemma_cancel_assigned_sends_nothing(self.tasks[id].consumers);
    }

    /// The loss of a result everywhere sends nothing.
    pub proof fn lemma_lose_each_sends_nothing(self, id: TaskId, list: Seq<WorkerId>)
        ensures
            sends_nothing(self, self.lose_each(id, list)),
        decreases list.len(),
    {
        if list.len() > 0 {
            let before = self.lose_each(id, list.drop_last());
            self.lemma_lose_each_sends_nothing(id, list.drop_last());
            before.lemma_lose_location_sends_nothing(list.last(), id);
            lemma_sends_nothing_twice(self, before, self.lose_each(id, list));
        }
    }

    /// The loss of the results that a worker held sends nothing.
    pub proof fn lemma_lose_data_sends_nothing(self, worker: WorkerId, list: Seq<TaskId>)
        ensures
            sends_nothing(self, self.lose_data(worker, list)),
        decreases list.len(),
    {
        if list.len() > 0 {
            let before = self.lose_data(worker, list.drop_last());
            self.lemma_lose_data_sends_nothing(worker, list.drop_last());
            before.lemma_lose_location_sends_nothing(worker, list.last());
            lemma_sends_nothing_twice(self, before, self.lose_data(worker, list));
        }
    }

    /// Taking tasks back from a worker writes nothing.
    pub proof fn lemma_requeue_each_writes_nothing(self, list: Seq<TaskId>)
        ensures
            self.requeue_each(list).outbox == self.outbox,
        decreases list.len(),
    {
        if list.len() > 0 {
            self.lemma_requeue_each_writes_nothing(list.drop_last());
        }
    }

    /// The spreading of a failure sends nothing.
    pub proof fn lemma_fail_all_sends_nothing(self, work: Seq<TaskId>)
        requires
            self.tasks.dom().finite(),
        ensures
            sends_nothing(self, self.fail_all(work)),
        decreases self.unfinished_set().len(), work.len(),
    {
        if work.len() > 0 {
            let failed = work.last();
            let rest = work.drop_last();
            if self.tasks.contains_key(failed) && self.tasks[failed].unfinished() {
                assert(self.unfinished_set().subset_of(self.tasks.dom()));
                vstd::set_lib::lemma_len_subset(self.unfinished_set(), self.tasks.dom());
                assert(self.fail(failed).unfinished_set() =~= self.unfinished_set().remove(failed));
                assert(self.fail(failed).tasks.dom() =~= self.tasks.dom());
                let next = self.fail(failed);
                assert(sends_nothing(self, next));
                next.lemma_fail_all_sends_nothing(rest + self.tasks[failed].consumers);
                lemma_sends_nothing_twice(self, next, self.fail_all(work));
            } else {
                self.lemma_fail_all_sends_nothing(rest);
            }
        }
    }

    /// Starting steals sends nothing.
    pub proof fn lemma_start_steals_sends_nothing(self, plan: Seq<StealCommand>)
        ensures
            sends_nothing(self, self.start_steals(plan)),
        decreases plan.len(),
    {
        if plan.len() > 0 {
            let before = self.start_steals(plan.drop_last());
            self.lemma_start_steals_sends_nothing(plan.drop_last());
            assert(sends_nothing(before, self.start_steals(plan)));
            lemma_sends_nothing_twice(self, before, self.start_steals(plan));
        }
    }

    /// Immediate placement only adds to the outbox, and each task that it
    /// sends to a worker is assigned to that worker afterwards.
    pub proof fn lemma_placement_assigns(self)
        requires
            self.core_inv(),
        ensures
            self.outbox.is_prefix_of(self.place_ready().outbox),
            forall|at: int|
                self.outbox.len() <= at < self.place_ready().outbox.len() ==> #[trigger] sent_at(
                    self.place_ready(),
                    at,
                ),
        decreases self.ready.len(),
    {
        if self.worker_order.len() == 0 || self.ready.len() == 0 {
        } else {
            self.lemma_place_first_effect();
            self.lemma_placement_names_holders();
            let first = self.ready[0];
            let next = self.place_first();
            let done = self.place_ready();
            assert(done == next.place_ready());
            next.lemma_placement_assigns();
            next.lemma_placed_stay(first);
            assert(!next.ready.contains(first)) by {
                next.lemma_task(first);
            }
            assert forall|at: int| self.outbox.len() <= at < done.outbox.len() implies #[trigger] sent_at(
                done,
                at,
            ) by {
                if at == self.outbox.len() {
                    assert(done.outbox[at] == next.outbox[at]);
                }
            }
        }
    }

    /// What follows the first step of an event, dropping what needs no
    /// keeping and placing what is ready, only adds to the outbox, and
    /// each task that it sends to a worker is assigned to that worker
    /// afterwards.
    pub proof fn lemma_cleanup_assigns(self, work: Seq<TaskId>)
        requires
            self.core_inv(),
        ensures
            self.outbox.is_prefix_of(self.collect(work).place_ready().outbox),
            forall|at: int|
                self.outbox.len() <= at < self.collect(work).place_ready().outbox.len() && (
                #[trigger] self.collect(work).place_ready().outbox[at]) is Assign ==> sent_at(
                    self.collect(work).place_ready(),
                    at,
                ),
    {
        let cleared = self.collect(work);
        let after = cleared.place_ready();
        self.lemma_collect(work);
        self.lemma_collect_writes_removals(work);
        cleared.lemma_placement_assigns();
        assert forall|at: int|
            self.outbox.len() <= at < after.outbox.len() && (#[trigger] after.outbox[at]) is Assign implies sent_at(
            after,
            at,
        ) by {
            if at < cleared.outbox.len() {
                assert(after.outbox[at] == cleared.outbox[at]);
                assert(cleared.outbox[at] is RemoveTask);
            }
        }
    }

    /// A first step that sends nothing, followed by dropping what needs
    /// no keeping and placing what is ready: the outbox has only grown,
    /// and each task that was sent to a worker is assigned to that worker.
    pub proof fn lemma_step_assigns(self, first: SchedulerView, work: Seq<TaskId>, at: int)
        requires
            first.core_inv(),
            sends_nothing(self, first),
            self.outbox.len() <= at < first.collect(work).place_ready().outbox.len(),
            first.collect(work).place_ready().outbox[at] is Assign,
        ensures
            self.outbox.is_prefix_of(first.collect(work).place_ready().outbox),
            sent_at(first.collect(work).place_ready(), at),
    {
        let after = first.collect(work).place_ready();
        first.lemma_cleanup_assigns(work);
        if at < first.outbox.len() {
            assert(after.outbox[at] == first.outbox[at]);
        }
    }

    /// Events only add to the outbox.
    pub proof fn lemma_outbox_grows(self, event: EventView)
        requires
            self.inv(),
            event matches EventView::TaskSubmit { deps, .. } ==> deps.len() <= usize::MAX,
        ensures
            self.outbox.is_prefix_of(self.step(event).outbox),
    {
        match event {
            EventView::TaskSubmit { id, deps, priority, size } => {
                if self.submit_applies(id, deps) {
                    self.lemma_enter_task(id, deps, priority, size);
                    self.enter_task(id, deps, priority, size).lemma_placement_assigns();
                }
            },
            EventView::TaskFinished { worker, id, size } => {
                if self.finish_applies(worker, id) {
                    self.lemma_mark_finished(worker, id, size);
                    self.mark_finished(worker, id, size).lemma_cleanup_assigns(
                        self.tasks[id].deps.push(id),
                    );
                }
            },
            EventView::TaskErred { worker, id } => {
                if self.finish_applies(worker, id) {
                    self.lemma_task(id);
                    self.lemma_fail(id);
                    let marked = self.mark_erred(id);
                    assert(marked.tasks.dom().finite()) by {
                        reveal(SchedulerView::core_inv);
                    }
                    marked.lemma_fail_all(self.tasks[id].consumers);
                    marked.lemma_fail_all_sends_nothing(self.tasks[id].consumers);
                    marked.fail_all(self.tasks[id].consumers).lemma_cleanup_assigns(
                        Seq::empty().push(id),
                    );
                }
            },
            EventView::TaskStealResponse { worker, id, response } => {
                if self.steal_applies(worker, id) && response == StealResponse::Success {
                    self.lemma_stolen(id);
                    self.stolen(id).lemma_placement_assigns();
                }
            },
            EventView::DataRemoved { worker, id } => {
                if self.tasks.contains_key(id) && self.tasks[id].locations.contains(worker) {
                    self.lemma_lose_location(worker, id);
                    self.lemma_lose_location_sends_nothing(worker, id);
                    self.lose_location(worker, id).lemma_cleanup_assigns(
                        self.tasks[id].consumers.push(id),
                    );
                }
            },
            EventView::DataDownloaded { .. } => {},
            EventView::DataUnavailable { id } => {
                if self.tasks.contains_key(id) && self.tasks[id].state is Finished {
                    self.lemma_task(id);
                    self.lemma_lose_each(id, self.tasks[id].locations);
                    self.lemma_lose_each_sends_nothing(id, self.tasks[id].locations);
                    self.lose_each(id, self.tasks[id].locations).lemma_cleanup_assigns(
                        self.tasks[id].consumers.push(id),
                    );
                }
            },
            EventView::WorkerAdded { id, address, ncpus } => {
                if !self.workers.contains_key(id) {
                    self.lemma_joined(id, address, ncpus);
                    self.joined(id, address, ncpus).lemma_placement_assigns();
                }
            },
            EventView::WorkerLost { id } => {
                if self.workers.contains_key(id) {
                    self.lemma_worker_gone(id);
                    let node = self.workers[id];
                    let requeued = self.requeue_each(node.tasks);
                    self.lemma_requeue_each_writes_nothing(node.tasks);
                    requeued.lemma_lose_data_sends_nothing(id, node.data);
                    requeued.lose_data(id, node.data).without_worker(id).lemma_cleanup_assigns(
                        node.tasks,
                    );
                }
            },
            EventView::ClientRelease { id } => {
                if self.tasks.contains_key(id) {
                    self.lemma_client_release(id);
                    self.mark_released(id).lemma_cleanup_assigns(Seq::empty().push(id));
                }
            },
            EventView::Tick => {
                self.lemma_start_steals_sends_nothing(self.rebalance());
            },
        }
    }

    /// A granted steal sends the task to the target of the steal, to which
    /// it is assigned afterwards, and sends nothing else.
    pub proof fn lemma_steal_assigns(self, worker: WorkerId, id: TaskId, at: int)
        requires
            self.inv(),
            self.steal_applies(worker, id),
            self.outbox.len() <= at < self.stolen(id).place_ready().outbox.len(),
        ensures
            sent_at(self.stolen(id).place_ready(), at),
    {
        let moved = self.stolen(id);
        let after = moved.place_ready();
        self.lemma_task(id);
        self.lemma_stolen(id);
        moved.lemma_placement_assigns();
        moved.lemma_placed_stay(id);
        let target = self.tasks[id].steal_target.unwrap();
        if self.workers.contains_key(target) {
            crate::idlist::lemma_without(self.requeue(id).ready, id);
            assert(!moved.ready.contains(id));
            if at < moved.outbox.len() {
                assert(after.outbox[at] == moved.outbox[at]);
                assert(at == self.outbox.len());
                assert(sent_at(moved, at));
            }
        }
    }

    /// A task that is sent is with its worker: each output that an event
    /// writes and that sends a task to a worker names a task which is
    /// assigned to that worker after the event. So a task is sent anew only
    /// after it has stopped being with a worker.
    pub proof fn lemma_assign_means_assigned(self, event: EventView, at: int)
        requires
            self.inv(),
            event matches EventView::TaskSubmit { deps, .. } ==> deps.len() <= usize::MAX,
            self.outbox.len() <= at < self.step(event).outbox.len(),
            self.step(event).outbox[at] is Assign,
        ensures
            sent_at(self.step(event), at),
    {
        match event {
            EventView::TaskSubmit { id, deps, priority, size } => {
                if self.submit_applies(id, deps) {
                    self.lemma_enter_task(id, deps, priority, size);
                    self.enter_task(id, deps, priority, size).lemma_placement_assigns();
                }
            },
            EventView::TaskFinished { worker, id, size } => {
                if self.finish_applies(worker, id) {
                    self.lemma_mark_finished(worker, id, size);
                    let first = self.mark_finished(worker, id, size);
                    assert(sends_nothing(self, first));
                    self.lemma_step_assigns(first, self.tasks[id].deps.push(id), at);
                }
            },
            EventView::TaskErred { worker, id } => {
                if self.finish_applies(worker, id) {
                    self.lemma_task(id);
                    self.lemma_fail(id);
                    let marked = self.mark_erred(id);
                    assert(marked.tasks.dom().finite()) by {
                        reveal(SchedulerView::core_inv);
                    }
                    marked.lemma_fail_all(self.tasks[id].consumers);
                    marked.lemma_fail_all_sends_nothing(self.tasks[id].consumers);
                    let first = marked.fail_all(self.tasks[id].consumers);
                    assert(sends_nothing(self, marked));
                    lemma_sends_nothing_twice(self, marked, first);
                    self.lemma_step_assigns(first, Seq::empty().push(id), at);
                }
            },
            EventView::TaskStealResponse { worker, id, response } => {
                if self.steal_applies(worker, id) && response == StealResponse::Success {
                    self.lemma_steal_assigns(worker, id, at);
                }
            },
            EventView::DataRemoved { worker, id } => {
                if self.tasks.contains_key(id) && self.tasks[id].locations.contains(worker) {
                    self.lemma_lose_location(worker, id);
                    self.lemma_lose_location_sends_nothing(worker, id);
                    self.lemma_step_assigns(
                        self.lose_location(worker, id),
                        self.tasks[id].consumers.push(id),
                        at,
                    );
                }
            },
            EventView::DataDownloaded { .. } => {},
            EventView::DataUnavailable { id } => {
                if self.tasks.contains_key(id) && self.tasks[id].state is Finished {
                    self.lemma_task(id);
                    self.lemma_lose_each(id, self.tasks[id].locations);
                    self.lemma_lose_each_sends_nothing(id, self.tasks[id].locations);
                    self.lemma_step_assigns(
                        self.lose_each(id, self.tasks[id].locations),
                        self.tasks[id].consumers.push(id),
                        at,
                    );
                }
            },
            EventView::WorkerAdded { id, address, ncpus } => {
                if !self.workers.contains_key(id) {
                    self.lemma_joined(id, address, ncpus);
                    self.joined(id, address, ncpus).lemma_placement_assigns();
                }
            },
            EventView::WorkerLost { id } => {
                if self.workers.contains_key(id) {
                    self.lemma_worker_gone(id);
                    let node = self.workers[id];
                    let requeued = self.requeue_each(node.tasks);
                    self.lemma_requeue_each_writes_nothing(node.tasks);
                    requeued.lemma_lose_data_sends_nothing(id, node.data);
                    let first = requeued.lose_data(id, node.data).without_worker(id);
                    assert(sends_nothing(self, first));
                    self.lemma_step_assigns(first, node.tasks, at);
                }
            },
            EventView::ClientRelease { id } => {
                if self.tasks.contains_key(id) {
                    self.lemma_client_release(id);
                    let first = self.mark_released(id);
                    assert(sends_nothing(self, first));
                    self.lemma_step_assigns(first, Seq::empty().push(id), at);
                }
            },
            EventView::Tick => {
                self.lemma_start_steals_sends_nothing(self.rebalance());
            },
        }
    }
}

} // verus!
