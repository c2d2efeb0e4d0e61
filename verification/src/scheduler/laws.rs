//! What holds of the scheduler whatever happens to it.

use crate::common::{TaskId, WorkerId};
use crate::scheduler::messages::{EventView, OutputView};
use crate::scheduler::model::SchedulerView;
use crate::scheduler::task::TaskState;
use vstd::prelude::*;

verus! {

/// The output at position `at` sends the task `id` to a worker.
pub open spec fn assigned_at(outbox: Seq<OutputView>, id: TaskId, at: int) -> bool {
    &&& 0 <= at < outbox.len()
    &&& outbox[at] matches OutputView::Assign { task, .. }
    &&& task == id
}

impl SchedulerView {
    /// A consistent scheduler is consistent after every event.
    pub proof fn lemma_step_keeps_inv(self, event: EventView)
        requires
            self.inv(),
            event matches EventView::TaskSubmit { deps, .. } ==> deps.len() <= usize::MAX,
        ensures
            self.step(event).inv(),
    {
        match event {
            EventView::TaskSubmit { id, deps, priority, size } => {
                if self.submit_applies(id, deps) {
                    self.lemma_enter_task(id, deps, priority, size);
                }
            },
            EventView::TaskFinished { worker, id, size } => {
                self.lemma_task_finished(worker, id, size);
            },
            EventView::TaskErred { worker, id } => {
                self.lemma_task_erred(worker, id);
            },
            EventView::TaskStealResponse { worker, id, response } => {
                self.lemma_task_steal_response(worker, id, response);
            },
            EventView::DataRemoved { worker, id } => {
                self.lemma_data_removed(worker, id);
            },
            EventView::DataDownloaded { worker, id } => {
                self.lemma_data_downloaded(worker, id);
            },
            EventView::DataUnavailable { id } => {
                self.lemma_data_unavailable(id);
            },
            EventView::WorkerAdded { id, address, ncpus } => {
                self.lemma_worker_added(id, address, ncpus);
            },
            EventView::WorkerLost { id } => {
                self.lemma_worker_lost(id);
            },
            EventView::ClientRelease { id } => {
                self.lemma_client_release(id);
            },
            EventView::Tick => {
                self.lemma_tick();
            },
        }
    }

    /// Work conservation: after every event, while a worker is connected, no
    /// task is left waiting for nothing. Every such task has been sent to a
    /// worker.
    pub proof fn lemma_work_conservation(self, event: EventView, id: TaskId)
        requires
            self.inv(),
            event matches EventView::TaskSubmit { deps, .. } ==> deps.len() <= usize::MAX,
            self.step(event).worker_order.len() > 0,
            self.step(event).tasks.contains_key(id),
        ensures
            self.step(event).tasks[id].state != TaskState::Waiting(0),
    {
        self.lemma_step_keeps_inv(event);
        let after = self.step(event);
        after.lemma_task(id);
        if after.tasks[id].state == TaskState::Waiting(0) {
            let k = choose|k: int| 0 <= k < after.ready.len() && after.ready[k] == id;
        }
    }

    /// What placing the oldest ready task does: one output joins the outbox
    /// and sends that task to a worker; the task is assigned; every other
    /// task is as before.
    pub proof fn lemma_place_first_effect(self)
        requires
            self.core_inv(),
            self.worker_order.len() > 0,
            self.ready.len() > 0,
        ensures
            self.place_first().core_inv(),
            self.place_first().worker_order == self.worker_order,
            self.place_first().ready == self.ready.drop_first(),
            self.place_first().outbox.len() == self.outbox.len() + 1,
            self.outbox.is_prefix_of(self.place_first().outbox),
            assigned_at(self.place_first().outbox, self.ready[0], self.outbox.len() as int),
            self.place_first().tasks.dom() == self.tasks.dom(),
            self.tasks.contains_key(self.ready[0]),
            self.place_first().tasks[self.ready[0]].state is Assigned,
            self.place_first().tasks[self.ready[0]].locations == self.tasks[self.ready[0]].locations,
            self.tasks[self.ready[0]].state is Waiting,
            forall|id: TaskId|
                id != self.ready[0] ==> #[trigger] self.place_first().tasks[id] == self.tasks[id],
    {
        self.lemma_place_first();
        self.lemma_ready(0);
        self.lemma_pick_target(self.tasks[self.ready[0]].deps);
        assert(self.place_first().tasks.dom() =~= self.tasks.dom());
    }

    /// Immediate placement announces what it does: with a worker at hand,
    /// each task that waited for nothing is assigned afterwards, and an
    /// output that sends it to a worker has joined the outbox.
    pub proof fn lemma_placement_announced(self, id: TaskId)
        requires
            self.core_inv(),
            self.worker_order.len() > 0,
            self.ready.contains(id),
        ensures
            self.place_ready().tasks.contains_key(id),
            self.place_ready().tasks[id].state is Assigned,
            exists|at: int| self.outbox.len() <= at && assigned_at(self.place_ready().outbox, id, at),
        decreases self.ready.len(),
    {
        let k = choose|k: int| 0 <= k < self.ready.len() && self.ready[k] == id;
        self.lemma_place_first_effect();
        let next = self.place_first();
        let done = self.place_ready();
        assert(done == next.place_ready());
        if self.ready[0] == id {
            next.lemma_placed_stay(id);
            assert(!next.ready.contains(id)) by {
                reveal(SchedulerView::core_inv);
                assert(next.task_ok(id));
            }
            let at = self.outbox.len() as int;
            assert(next.outbox[at] == done.outbox[at]);
            assert(assigned_at(done.outbox, id, at));
        } else {
            assert(next.ready[k - 1] == id);
            next.lemma_placement_announced(id);
            let at = choose|at: int| next.outbox.len() <= at && assigned_at(done.outbox, id, at);
            assert(self.outbox.len() <= at && assigned_at(done.outbox, id, at));
        }
    }

    /// Immediate placement only appends to the outbox and leaves alone the
    /// tasks that are not ready.
    pub proof fn lemma_placed_stay(self, id: TaskId)
        requires
            self.core_inv(),
        ensures
            self.outbox.is_prefix_of(self.place_ready().outbox),
            self.place_ready().tasks.dom() == self.tasks.dom(),
            self.tasks.contains_key(id) && !self.ready.contains(id) ==> self.place_ready().tasks[id]
                == self.tasks[id],
        decreases self.ready.len(),
    {
        if self.worker_order.len() == 0 || self.ready.len() == 0 {
        } else {
            self.lemma_place_first_effect();
            let next = self.place_first();
            assert(self.place_ready() == next.place_ready());
            assert(self.ready.contains(self.ready[0]));
            if next.ready.contains(id) {
                let k = choose|k: int| 0 <= k < next.ready.len() && next.ready[k] == id;
                assert(self.ready[k + 1] == id);
            }
            next.lemma_placed_stay(id);
        }
    }

    /// No double run: after every event, a task is on the list of at most
    /// one worker, and that is the worker on which the task is.
    pub proof fn lemma_single_worker(self, event: EventView, id: TaskId, first: WorkerId, second: WorkerId)
        requires
            self.inv(),
            event matches EventView::TaskSubmit { deps, .. } ==> deps.len() <= usize::MAX,
            self.step(event).workers.contains_key(first),
            self.step(event).workers.contains_key(second),
            self.step(event).workers[first].tasks.contains(id),
            self.step(event).workers[second].tasks.contains(id),
        ensures
            first == second,
            self.step(event).tasks.contains_key(id),
            self.step(event).tasks[id].on_worker() == Some(first),
    {
        self.lemma_step_keeps_inv(event);
        let after = self.step(event);
        after.lemma_worker(first);
        after.lemma_worker(second);
        let i = choose|i: int|
            0 <= i < after.workers[first].tasks.len() && after.workers[first].tasks[i] == id;
        let j = choose|j: int|
            0 <= j < after.workers[second].tasks.len() && after.workers[second].tasks[j] == id;
        assert(after.tasks[after.workers[first].tasks[i]].on_worker() == Some(first));
        assert(after.tasks[after.workers[second].tasks[j]].on_worker() == Some(second));
    }

    /// A finished task has its result somewhere.
    pub proof fn lemma_finished_has_location(self, event: EventView, id: TaskId)
        requires
            self.inv(),
            event matches EventView::TaskSubmit { deps, .. } ==> deps.len() <= usize::MAX,
            self.step(event).tasks.contains_key(id),
            self.step(event).tasks[id].state is Finished,
        ensures
            self.step(event).tasks[id].locations.len() > 0,
            forall|i: int|
                0 <= i < self.step(event).tasks[id].locations.len() ==> self.step(
                    event,
                ).workers.contains_key(#[trigger] self.step(event).tasks[id].locations[i]),
    {
        self.lemma_step_keeps_inv(event);
        self.step(event).lemma_task(id);
    }
}

} // verus!
