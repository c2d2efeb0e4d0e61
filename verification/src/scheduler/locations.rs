//! Where the results are, from one event to the next.

use crate::common::{TaskId, WorkerId};
use crate::idlist::{lemma_push_new, lemma_without};
use crate::scheduler::kind::SchedulerType;
use crate::scheduler::messages::EventView;
use crate::scheduler::model::SchedulerView;
use crate::scheduler::recovery::lemma_without_all;
use crate::scheduler::task::TaskState;
use crate::worker::messages::StealResponse;
use vstd::prelude::*;

verus! {

/// From `before` to `after` the result of the task `id` has stayed where it
/// was, or it is nowhere any more.
pub open spec fn location_kept(before: SchedulerView, after: SchedulerView, id: TaskId) -> bool {
    after.tasks.contains_key(id) ==> after.tasks[id].locations.len() == 0 || (
    before.tasks.contains_key(id) && after.tasks[id].locations == before.tasks[id].locations)
}

/// From `before` to `after` the task `id` has not failed, unless it had
/// failed before.
pub open spec fn failure_kept(before: SchedulerView, after: SchedulerView, id: TaskId) -> bool {
    after.tasks.contains_key(id) && after.tasks[id].state is Erred ==> before.tasks.contains_key(id)
        && before.tasks[id].state is Erred
}

/// From `before` to `after` a task that was finished is finished, unless it
/// is gone or its result was given up for good; and a result that was given
/// up for good stays so.
pub open spec fn finished_kept(before: SchedulerView, after: SchedulerView, id: TaskId) -> bool {
    before.tasks.contains_key(id) && after.tasks.contains_key(id) ==> {
        &&& before.tasks[id].state is Finished ==> after.tasks[id].state is Finished
            || after.tasks[id].state is Released
        &&& before.tasks[id].state is Released ==> after.tasks[id].state is Released
    }
}

/// From `before` to `after` every result has stayed where it was, or is
/// nowhere any more.
pub open spec fn locations_kept(before: SchedulerView, after: SchedulerView) -> bool {
    forall|id: TaskId| #[trigger] location_kept(before, after, id)
}

/// From `before` to `after` no task has failed.
pub open spec fn failures_kept(before: SchedulerView, after: SchedulerView) -> bool {
    forall|id: TaskId| #[trigger] failure_kept(before, after, id)
}

/// From `before` to `after` no finished task has been put back.
pub open spec fn all_finished_kept(before: SchedulerView, after: SchedulerView) -> bool {
    forall|id: TaskId| #[trigger] finished_kept(before, after, id)
}

/// From `before` to `after` nothing has happened to results and failures.
pub open spec fn quiet(before: SchedulerView, after: SchedulerView) -> bool {
    &&& locations_kept(before, after)
    &&& failures_kept(before, after)
    &&& all_finished_kept(before, after)
}

/// Two quiet steps make a quiet step.
pub proof fn lemma_quiet_twice(first: SchedulerView, second: SchedulerView, third: SchedulerView)
    requires
        quiet(first, second),
        quiet(second, third),
        third.tasks.dom().subset_of(second.tasks.dom()),
    ensures
        quiet(first, third),
{
    assert forall|id: TaskId| #[trigger] location_kept(first, third, id) by {
        assert(location_kept(first, second, id));
        assert(location_kept(second, third, id));
    }
    assert forall|id: TaskId| #[trigger] failure_kept(first, third, id) by {
        assert(failure_kept(first, second, id));
        assert(failure_kept(second, third, id));
    }
    assert forall|id: TaskId| #[trigger] finished_kept(first, third, id) by {
        assert(finished_kept(first, second, id));
        assert(finished_kept(second, third, id));
        if third.tasks.contains_key(id) {
            assert(second.tasks.dom().contains(id));
        }
    }
}

impl SchedulerView {
    /// A released task is not finished, and whoever is released for good was
    /// released by the client; tasks that are not finished have no
    /// locations.
    pub proof fn lemma_states(self, id: TaskId)
        requires
            self.core_inv(),
            self.tasks.contains_key(id),
        ensures
            self.tasks[id].state is Finished <==> self.tasks[id].locations.len() > 0,
            self.tasks[id].state is Released ==> self.tasks[id].released,
    {
        self.lemma_task(id);
    }

    /// Immediate placement is quiet.
    pub proof fn lemma_place_ready_quiet(self)
        requires
            self.core_inv(),
        ensures
            quiet(self, self.place_ready()),
            self.place_ready().tasks.dom() == self.tasks.dom(),
        decreases self.ready.len(),
    {
        if self.worker_order.len() == 0 || self.ready.len() == 0 {
            assert forall|id: TaskId| #[trigger] location_kept(self, self.place_ready(), id) by {}
            assert forall|id: TaskId| #[trigger] failure_kept(self, self.place_ready(), id) by {}
            assert forall|id: TaskId| #[trigger] finished_kept(self, self.place_ready(), id) by {}
        } else {
            self.lemma_place_first_effect();
            let next = self.place_first();
            assert(self.place_ready() == next.place_ready());
            next.lemma_place_ready_quiet();
            assert forall|id: TaskId| #[trigger] location_kept(self, next, id) by {}
            assert forall|id: TaskId| #[trigger] failure_kept(self, next, id) by {}
            assert forall|id: TaskId| #[trigger] finished_kept(self, next, id) by {}
            lemma_quiet_twice(self, next, self.place_ready());
        }
    }

    /// A task that leaves the graph, and a result that is given up, are
    /// quiet.
    pub proof fn lemma_collect_step_quiet(self, id: TaskId)
        requires
            self.core_inv(),
            self.tasks.contains_key(id),
        ensures
            quiet(self, self.remove_node(id)),
            self.releasable(id) ==> quiet(self, self.release_memory(id)),
    {
        assert forall|other: TaskId| #[trigger] location_kept(self, self.remove_node(id), other) by {}
        assert forall|other: TaskId| #[trigger] failure_kept(self, self.remove_node(id), other) by {}
        assert forall|other: TaskId| #[trigger] finished_kept(self, self.remove_node(id), other) by {}
        if self.releasable(id) {
            assert forall|other: TaskId| #[trigger] location_kept(self, self.release_memory(id), other) by {}
            assert forall|other: TaskId| #[trigger] failure_kept(self, self.release_memory(id), other) by {}
            assert forall|other: TaskId| #[trigger] finished_kept(self, self.release_memory(id), other) by {}
        }
    }

    /// Looking for tasks that can go is quiet.
    pub proof fn lemma_collect_quiet(self, work: Seq<TaskId>)
        requires
            self.core_inv(),
        ensures
            quiet(self, self.collect(work)),
            self.collect(work).tasks.dom().subset_of(self.tasks.dom()),
        decreases self.tasks.dom().len(), work.len(),
    {
        assert(self.tasks.dom().finite()) by {
            reveal(SchedulerView::core_inv);
        }
        if work.len() == 0 {
            assert forall|id: TaskId| #[trigger] location_kept(self, self.collect(work), id) by {}
            assert forall|id: TaskId| #[trigger] failure_kept(self, self.collect(work), id) by {}
            assert forall|id: TaskId| #[trigger] finished_kept(self, self.collect(work), id) by {}
        } else {
            let id = work.last();
            let rest = work.drop_last();
            if self.removable(id) {
                self.lemma_remove_node(id);
                self.lemma_collect_step_quiet(id);
                self.remove_node(id).lemma_collect_quiet(rest + self.tasks[id].deps);
                lemma_quiet_twice(self, self.remove_node(id), self.collect(work));
            } else if self.releasable(id) {
                self.lemma_release_memory(id);
                self.lemma_collect_step_quiet(id);
                self.release_memory(id).lemma_collect_quiet(rest);
                lemma_quiet_twice(self, self.release_memory(id), self.collect(work));
            } else {
                self.lemma_collect_quiet(rest);
            }
        }
    }

    /// What follows the first step of an event, dropping what needs no
    /// keeping and placing what is ready, is quiet.
    pub proof fn lemma_finish_quiet(self, work: Seq<TaskId>)
        requires
            self.core_inv(),
        ensures
            quiet(self, self.collect(work).place_ready()),
            self.collect(work).place_ready().tasks.dom().subset_of(self.tasks.dom()),
    {
        self.lemma_collect(work);
        self.lemma_collect_quiet(work);
        self.collect(work).lemma_place_ready_quiet();
        lemma_quiet_twice(self, self.collect(work), self.collect(work).place_ready());
    }

    /// The spreading of a failure keeps the locations, and leaves alone the
    /// tasks that are done.
    pub proof fn lemma_fail_all_keeps(self, work: Seq<TaskId>)
        requires
            self.core_inv(),
        ensures
            locations_kept(self, self.fail_all(work)),
            all_finished_kept(self, self.fail_all(work)),
            self.fail_all(work).tasks.dom() == self.tasks.dom(),
        decreases self.unfinished_set().len(), work.len(),
    {
        assert(self.tasks.dom().finite()) by {
            reveal(SchedulerView::core_inv);
        }
        let after = self.fail_all(work);
        if work.len() == 0 {
            assert forall|id: TaskId| #[trigger] location_kept(self, after, id) by {}
            assert forall|id: TaskId| #[trigger] finished_kept(self, after, id) by {}
        } else {
            let id = work.last();
            let rest = work.drop_last();
            if self.tasks.contains_key(id) && self.tasks[id].unfinished() {
                self.lemma_fail(id);
                assert(self.unfinished_set().subset_of(self.tasks.dom()));
                vstd::set_lib::lemma_len_subset(self.unfinished_set(), self.tasks.dom());
                assert(self.fail(id).unfinished_set() =~= self.unfinished_set().remove(id));
                let failed = self.fail(id);
                failed.lemma_fail_all_keeps(rest + self.tasks[id].consumers);
                assert forall|other: TaskId| #[trigger] location_kept(self, after, other) by {
                    assert(location_kept(failed, after, other));
                }
                assert forall|other: TaskId| #[trigger] finished_kept(self, after, other) by {
                    assert(finished_kept(failed, after, other));
                }
            } else {
                self.lemma_fail_all_keeps(rest);
            }
        }
    }

    /// A failed task keeps the locations and puts no finished task back.
    pub proof fn lemma_task_erred_keeps(self, worker: WorkerId, id: TaskId)
        requires
            self.inv(),
        ensures
            locations_kept(self, self.task_erred(worker, id)),
            all_finished_kept(self, self.task_erred(worker, id)),
    {
        let after = self.task_erred(worker, id);
        if self.finish_applies(worker, id) {
            self.lemma_fail(id);
            let marked = self.mark_erred(id);
            marked.lemma_fail_all(self.tasks[id].consumers);
            marked.lemma_fail_all_keeps(self.tasks[id].consumers);
            let spread = marked.fail_all(self.tasks[id].consumers);
            spread.lemma_finish_quiet(Seq::empty().push(id));
            assert forall|other: TaskId| #[trigger] location_kept(self, after, other) by {
                assert(location_kept(marked, spread, other));
                assert(location_kept(spread, after, other));
            }
            assert forall|other: TaskId| #[trigger] finished_kept(self, after, other) by {
                assert(finished_kept(marked, spread, other));
                assert(finished_kept(spread, after, other));
                if after.tasks.contains_key(other) {
                    assert(spread.tasks.dom().contains(other));
                }
            }
        } else {
            assert forall|other: TaskId| #[trigger] location_kept(self, after, other) by {}
            assert forall|other: TaskId| #[trigger] finished_kept(self, after, other) by {}
        }
    }

    /// The events that neither make nor lose a result, and at which no task
    /// fails, are quiet.
    pub proof fn lemma_quiet_events(self, event: EventView)
        requires
            self.inv(),
            event matches EventView::TaskSubmit { deps, .. } ==> deps.len() <= usize::MAX,
            event is TaskSubmit || event is TaskStealResponse || event is WorkerAdded
                || event is ClientRelease || event is Tick,
        ensures
            quiet(self, self.step(event)),
    {
        let after = self.step(event);
        match event {
            EventView::TaskSubmit { id, deps, priority, size } => {
                if self.submit_applies(id, deps) {
                    self.lemma_enter_task(id, deps, priority, size);
                    let entered = self.enter_task(id, deps, priority, size);
                    assert forall|other: TaskId| #[trigger] location_kept(self, entered, other) by {}
                    assert forall|other: TaskId| #[trigger] failure_kept(self, entered, other) by {}
                    assert forall|other: TaskId| #[trigger] finished_kept(self, entered, other) by {}
                    entered.lemma_place_ready_quiet();
                    lemma_quiet_twice(self, entered, after);
                } else {
                    self.lemma_unchanged_is_quiet();
                }
            },
            EventView::TaskStealResponse { worker, id, response } => {
                if self.steal_applies(worker, id) {
                    self.lemma_task_steal_response(worker, id, response);
                    match response {
                        StealResponse::Success => {
                            self.lemma_stolen(id);
                            self.lemma_requeue(id);
                            let stolen = self.stolen(id);
                            assert forall|other: TaskId| #[trigger] location_kept(self, stolen, other) by {}
                            assert forall|other: TaskId| #[trigger] failure_kept(self, stolen, other) by {}
                            assert forall|other: TaskId| #[trigger] finished_kept(self, stolen, other) by {}
                            stolen.lemma_place_ready_quiet();
                            lemma_quiet_twice(self, stolen, after);
                        },
                        _ => {
                            assert forall|other: TaskId| #[trigger] location_kept(self, after, other) by {}
                            assert forall|other: TaskId| #[trigger] failure_kept(self, after, other) by {}
                            assert forall|other: TaskId| #[trigger] finished_kept(self, after, other) by {}
                        },
                    }
                } else {
                    self.lemma_unchanged_is_quiet();
                }
            },
            EventView::WorkerAdded { id, address, ncpus } => {
                if !self.workers.contains_key(id) {
                    self.lemma_joined(id, address, ncpus);
                    let joined = self.joined(id, address, ncpus);
                    assert forall|other: TaskId| #[trigger] location_kept(self, joined, other) by {}
                    assert forall|other: TaskId| #[trigger] failure_kept(self, joined, other) by {}
                    assert forall|other: TaskId| #[trigger] finished_kept(self, joined, other) by {}
                    joined.lemma_place_ready_quiet();
                    lemma_quiet_twice(self, joined, after);
                } else {
                    self.lemma_unchanged_is_quiet();
                }
            },
            EventView::ClientRelease { id } => {
                if self.tasks.contains_key(id) {
                    self.lemma_client_release(id);
                    let marked = self.mark_released(id);
                    assert forall|other: TaskId| #[trigger] location_kept(self, marked, other) by {}
                    assert forall|other: TaskId| #[trigger] failure_kept(self, marked, other) by {}
                    assert forall|other: TaskId| #[trigger] finished_kept(self, marked, other) by {}
                    marked.lemma_finish_quiet(Seq::empty().push(id));
                    assert(marked.tasks.dom() =~= self.tasks.dom());
                    lemma_quiet_twice(self, marked, after);
                } else {
                    self.lemma_unchanged_is_quiet();
                }
            },
            EventView::Tick => {
                self.lemma_tick();
                match self.kind {
                    SchedulerType::Workstealing => {
                        self.lemma_order();
                        self.lemma_plan_over(self.worker_order);
                    },
                    SchedulerType::Random => {},
                }
                self.lemma_start_steals(self.rebalance());
                assert forall|other: TaskId| #[trigger] location_kept(self, after, other) by {}
                assert forall|other: TaskId| #[trigger] failure_kept(self, after, other) by {}
                assert forall|other: TaskId| #[trigger] finished_kept(self, after, other) by {}
            },
            _ => {},
        }
    }

    /// Nothing is quiet.
    pub proof fn lemma_unchanged_is_quiet(self)
        ensures
            quiet(self, self),
    {
        assert forall|other: TaskId| #[trigger] location_kept(self, self, other) by {}
        assert forall|other: TaskId| #[trigger] failure_kept(self, self, other) by {}
        assert forall|other: TaskId| #[trigger] finished_kept(self, self, other) by {}
    }

    /// What an event does to the result of a task that was known before.
    /// The end of the task puts the result on the worker that has done it.
    /// The arrival of a copy adds a location. The loss of a copy or of a
    /// worker takes that location away, and a result that is unavailable is
    /// nowhere. Whatever the event, the result may also be nowhere
    /// afterwards; otherwise it is where it was.
    pub open spec fn locations_after(self, event: EventView, id: TaskId) -> Seq<WorkerId> {
        let before = self.tasks[id].locations;
        match event {
            EventView::TaskFinished { worker, id: done, .. } => if done == id && self.finish_applies(
                worker,
                done,
            ) {
                Seq::empty().push(worker)
            } else {
                before
            },
            EventView::DataDownloaded { worker, id: copied } => if copied == id && self.replica_applies(
                worker,
                copied,
            ) {
                before.push(worker)
            } else {
                before
            },
            EventView::DataRemoved { worker, id: dropped } => if dropped == id {
                crate::idlist::without(before, worker)
            } else {
                before
            },
            EventView::WorkerLost { id: gone } => crate::idlist::without(before, gone),
            _ => before,
        }
    }

    /// After an event the result of a task that was known before is
    /// nowhere, or where [`SchedulerView::locations_after`] says; and no task
    /// has failed unless the event is the failure of a task.
    pub proof fn lemma_locations_after(self, event: EventView, id: TaskId)
        requires
            self.inv(),
            event matches EventView::TaskSubmit { deps, .. } ==> deps.len() <= usize::MAX,
            self.step(event).tasks.contains_key(id),
        ensures
            self.step(event).tasks[id].locations.len() == 0 || (self.tasks.contains_key(id)
                && self.step(event).tasks[id].locations == self.locations_after(event, id)),
            !(event is TaskErred) ==> failure_kept(self, self.step(event), id),
    {
        let after = self.step(event);
        match event {
            EventView::TaskFinished { worker: on, id: done, size } => {
                if self.finish_applies(on, done) {
                    self.lemma_mark_finished(on, done, size);
                    let marked = self.mark_finished(on, done, size);
                    marked.lemma_finish_quiet(self.tasks[done].deps.push(done));
                    assert(location_kept(marked, after, id));
                    assert(failure_kept(marked, after, id));
                }
            },
            EventView::TaskErred { worker: on, id: failed } => {
                self.lemma_task_erred_keeps(on, failed);
                assert(location_kept(self, after, id));
            },
            EventView::DataDownloaded { worker: on, id: copied } => {},
            EventView::DataRemoved { worker: on, id: dropped } => {
                if self.tasks.contains_key(dropped) && self.tasks[dropped].locations.contains(on) {
                    self.lemma_lose_location(on, dropped);
                    let lost = self.lose_location(on, dropped);
                    lost.lemma_finish_quiet(self.tasks[dropped].consumers.push(dropped));
                    assert(location_kept(lost, after, id));
                    assert(failure_kept(lost, after, id));
                    if dropped != id && after.tasks.contains_key(id) {
                        assert(lost.tasks.contains_key(id));
                        assert(lost.settled_like(self, id));
                    }
                } else if self.tasks.contains_key(id) {
                    if dropped == id {
                        lemma_without(self.tasks[id].locations, on);
                    }
                }
            },
            EventView::DataUnavailable { id: missing } => {
                if self.tasks.contains_key(missing) && self.tasks[missing].state is Finished {
                    self.lemma_task(missing);
                    self.lemma_lose_each(missing, self.tasks[missing].locations);
                    let lost = self.lose_each(missing, self.tasks[missing].locations);
                    lemma_without_all(self.tasks[missing].locations, self.tasks[missing].locations);
                    assert(lost.tasks[missing].locations.len() == 0) by {
                        if lost.tasks[missing].locations.len() > 0 {
                            assert(lost.tasks[missing].locations.contains(
                                lost.tasks[missing].locations[0],
                            ));
                        }
                    }
                    lost.lemma_finish_quiet(self.tasks[missing].consumers.push(missing));
                    assert(location_kept(lost, after, id));
                    assert(failure_kept(lost, after, id));
                    if missing != id {
                        assert(lost.tasks.contains_key(id));
                        assert(lost.settled_like(self, id));
                    }
                }
            },
            EventView::WorkerLost { id: gone } => {
                if self.workers.contains_key(gone) {
                    let node = self.workers[gone];
                    self.lemma_worker_gone(gone);
                    self.lemma_requeue_each(node.tasks);
                    let requeued = self.requeue_each(node.tasks);
                    assert forall|i: int| 0 <= i < node.data.len() implies requeued.tasks.contains_key(
                        #[trigger] node.data[i],
                    ) && requeued.tasks[node.data[i]].locations.contains(gone) by {
                        assert(self.tasks.contains_key(node.data[i]));
                        assert(requeued.settled_like(self, node.data[i]));
                    }
                    requeued.lemma_lose_data(gone, node.data);
                    let lost = requeued.lose_data(gone, node.data);
                    let left = lost.without_worker(gone);
                    left.lemma_finish_quiet(node.tasks);
                    assert(location_kept(left, after, id));
                    assert(failure_kept(left, after, id));
                    assert(left.tasks.contains_key(id));
                    assert(requeued.tasks.contains_key(id));
                    assert(self.tasks.contains_key(id));
                    assert(requeued.settled_like(self, id));
                    if !node.data.contains(id) {
                        self.lemma_not_held(gone, id);
                    }
                } else if self.tasks.contains_key(id) {
                    self.lemma_not_held(gone, id);
                }
            },
            _ => {
                self.lemma_quiet_events(event);
                assert(location_kept(self, after, id));
                assert(failure_kept(self, after, id));
            },
        }
    }

    /// A result that a worker does not list is not on that worker.
    pub proof fn lemma_not_held(self, worker: WorkerId, id: TaskId)
        requires
            self.core_inv(),
            self.tasks.contains_key(id),
            !(self.workers.contains_key(worker) && self.workers[worker].data.contains(id)),
        ensures
            !self.tasks[id].locations.contains(worker),
            crate::idlist::without(self.tasks[id].locations, worker) == self.tasks[id].locations,
    {
        self.lemma_task(id);
        lemma_without(self.tasks[id].locations, worker);
        if self.tasks[id].locations.contains(worker) {
            let k = choose|k: int|
                0 <= k < self.tasks[id].locations.len() && self.tasks[id].locations[k] == worker;
            assert(self.workers[self.tasks[id].locations[k]].data.contains(id));
        }
    }

    /// What [`SchedulerView::locations_after`] says of a finished task
    /// differs from where the result was only by the copy that has arrived
    /// or by the location that was lost.
    pub proof fn lemma_locations_after_change(self, event: EventView, id: TaskId, worker: WorkerId)
        requires
            self.tasks[id].state is Finished,
            self.tasks[id].locations.no_duplicates(),
        ensures
            self.locations_after(event, id).contains(worker) && !self.tasks[id].locations.contains(
                worker,
            ) ==> event == (EventView::DataDownloaded { worker, id }),
            self.tasks[id].locations.contains(worker) && !self.locations_after(event, id).contains(
                worker,
            ) ==> event == (EventView::WorkerLost { id: worker }) || event == (EventView::DataRemoved {
                worker,
                id,
            }),
    {
        let before = self.tasks[id].locations;
        match event {
            EventView::DataDownloaded { worker: on, id: copied } => {
                if self.replica_applies(on, copied) && copied == id {
                    lemma_push_new(before, on);
                }
            },
            EventView::DataRemoved { worker: on, id: dropped } => {
                lemma_without(before, on);
            },
            EventView::WorkerLost { id: gone } => {
                lemma_without(before, gone);
            },
            _ => {},
        }
    }

    /// Monotone locations: the result of a task that is finished before and
    /// after an event has come to a worker only by the arrival of a copy on
    /// that worker, and has left a worker only by the loss of that worker
    /// or of its copy.
    pub proof fn lemma_monotone_locations(self, event: EventView, id: TaskId, worker: WorkerId)
        requires
            self.inv(),
            event matches EventView::TaskSubmit { deps, .. } ==> deps.len() <= usize::MAX,
            self.tasks.contains_key(id),
            self.tasks[id].state is Finished,
            self.step(event).tasks.contains_key(id),
            self.step(event).tasks[id].state is Finished,
        ensures
            self.step(event).tasks[id].locations.contains(worker) && !self.tasks[id].locations.contains(
                worker,
            ) ==> event == (EventView::DataDownloaded { worker, id }),
            self.tasks[id].locations.contains(worker) && !self.step(event).tasks[id].locations.contains(
                worker,
            ) ==> event == (EventView::WorkerLost { id: worker }) || event == (EventView::DataRemoved {
                worker,
                id,
            }),
    {
        self.lemma_step_keeps_inv(event);
        self.step(event).lemma_states(id);
        self.lemma_task(id);
        self.lemma_locations_after(event, id);
        self.lemma_locations_after_change(event, id, worker);
    }

    /// The first location: a task that is finished after an event and was
    /// not before has been done by a worker, and its result is on that
    /// worker and nowhere else.
    pub proof fn lemma_first_location(self, event: EventView, id: TaskId)
        requires
            self.inv(),
            event matches EventView::TaskSubmit { deps, .. } ==> deps.len() <= usize::MAX,
            self.step(event).tasks.contains_key(id),
            self.step(event).tasks[id].state is Finished,
            !(self.tasks.contains_key(id) && self.tasks[id].state is Finished),
        ensures
            event matches EventView::TaskFinished { worker, id: done, .. } && done == id && self.step(
                event,
            ).tasks[id].locations == Seq::<WorkerId>::empty().push(worker),
    {
        self.lemma_step_keeps_inv(event);
        self.step(event).lemma_states(id);
        self.lemma_locations_after(event, id);
        self.lemma_states(id);
        match event {
            EventView::DataRemoved { worker: on, id: dropped } => {
                lemma_without(self.tasks[id].locations, on);
            },
            EventView::WorkerLost { id: gone } => {
                lemma_without(self.tasks[id].locations, gone);
            },
            _ => {},
        }
    }

    /// A lost result is made again: a task that the client has not released
    /// and that stops being finished waits, is assigned, or runs
    /// afterwards; and with a worker connected it does not wait for
    /// nothing.
    pub proof fn lemma_lost_result_runs_again(self, event: EventView, id: TaskId)
        requires
            self.inv(),
            event matches EventView::TaskSubmit { deps, .. } ==> deps.len() <= usize::MAX,
            self.tasks.contains_key(id),
            self.tasks[id].state is Finished,
            self.step(event).tasks.contains_key(id),
            !(self.step(event).tasks[id].state is Finished),
            !self.step(event).tasks[id].released,
        ensures
            self.step(event).tasks[id].unfinished(),
            self.step(event).worker_order.len() > 0 ==> self.step(event).tasks[id].state
                != TaskState::Waiting(0),
    {
        self.lemma_step_keeps_inv(event);
        self.step(event).lemma_states(id);
        if event is TaskErred {
            self.lemma_task_erred_keeps(event->TaskErred_worker, event->TaskErred_id);
            assert(finished_kept(self, self.step(event), id));
        } else {
            self.lemma_locations_after(event, id);
        }
        if self.step(event).worker_order.len() > 0 {
            self.lemma_work_conservation(event, id);
        }
    }
}

} // verus!
