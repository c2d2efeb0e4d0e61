//! Rebalancing by stealing.

use crate::common::{TaskId, WorkerId};
use crate::idlist::{lemma_push_new, lemma_without, without};
use crate::scheduler::kind::SchedulerType;
use crate::scheduler::messages::{EventView, OutputView};
use crate::scheduler::model::SchedulerView;
use crate::scheduler::task::{TaskState, TaskView};
use crate::worker::messages::StealResponse;
use vstd::prelude::*;

verus! {

/// The plan to take a task from one worker and to give it to another.
#[derive(Clone, Copy, Debug, PartialEq, Eq, Structural)]
pub struct StealCommand {
    pub from: WorkerId,
    pub task: TaskId,
    pub target: WorkerId,
}

impl SchedulerView {
    /// The sum of the loads of the workers of `order`.
    pub open spec fn total_load(self, order: Seq<WorkerId>) -> nat
        decreases order.len(),
    {
        if order.len() == 0 {
            0
        } else {
            self.total_load(order.drop_last()) + self.workers[order.last()].load()
        }
    }

    /// The load of the worker is more than one above the average.
    pub open spec fn overloaded(self, worker: WorkerId) -> bool {
        self.workers[worker].load() * self.worker_order.len() > self.total_load(self.worker_order)
            + self.worker_order.len()
    }

    /// The worker to which the task `id` should go from `worker`, if it
    /// should go: the task is assigned, no steal is in flight for it, and
    /// the cheapest worker is another one and cheaper by more than the
    /// margin.
    pub open spec fn better_place(self, worker: WorkerId, id: TaskId) -> Option<WorkerId> {
        let task = self.tasks[id];
        let target = choose|target: WorkerId| self.is_cheapest(target, task.deps);
        if task.state is Assigned && task.steal_target is None && target != worker && self.cost(
            target,
            task.deps,
        ) + self.epsilon < self.cost(worker, task.deps) {
            Some(target)
        } else {
            None
        }
    }

    /// The steals from `worker` among the tasks of `list`, in their order.
    pub open spec fn plan_for(self, worker: WorkerId, list: Seq<TaskId>) -> Seq<StealCommand>
        decreases list.len(),
    {
        if list.len() == 0 {
            Seq::empty()
        } else {
            match self.better_place(worker, list.last()) {
                Some(target) => self.plan_for(worker, list.drop_last()).push(
                    StealCommand { from: worker, task: list.last(), target },
                ),
                None => self.plan_for(worker, list.drop_last()),
            }
        }
    }

    /// The steals from the overloaded workers of `order`, in their order.
    pub open spec fn plan_over(self, order: Seq<WorkerId>) -> Seq<StealCommand>
        decreases order.len(),
    {
        if order.len() == 0 {
            Seq::empty()
        } else if self.overloaded(order.last()) {
            self.plan_over(order.drop_last()) + self.plan_for(
                order.last(),
                self.workers[order.last()].tasks,
            )
        } else {
            self.plan_over(order.drop_last())
        }
    }

    /// The steals that rebalance the workers. Only the work-stealing policy
    /// rebalances.
    pub open spec fn rebalance(self) -> Seq<StealCommand> {
        match self.kind {
            SchedulerType::Workstealing => self.plan_over(self.worker_order),
            SchedulerType::Random => Seq::empty(),
        }
    }

    /// The graph after the steal `command` has been started: the worker is
    /// asked to give the task up, and the steal is in flight.
    pub open spec fn start_steal(self, command: StealCommand) -> SchedulerView {
        SchedulerView {
            tasks: self.tasks.insert(
                command.task,
                TaskView { steal_target: Some(command.target), ..self.tasks[command.task] },
            ),
            outbox: self.outbox.push(OutputView::Steal { worker: command.from, task: command.task }),
            ..self
        }
    }

    /// The graph after the steals of `plan` have been started.
    pub open spec fn start_steals(self, plan: Seq<StealCommand>) -> SchedulerView
        decreases plan.len(),
    {
        if plan.len() == 0 {
            self
        } else {
            self.start_steals(plan.drop_last()).start_steal(plan.last())
        }
    }

    /// The scheduler after time has passed: the steals that rebalance the
    /// workers are started.
    pub open spec fn tick(self) -> SchedulerView {
        self.start_steals(self.rebalance())
    }

    /// A change of the steal in flight of an assigned task, or of an
    /// assigned task to a running one, keeps the graph consistent.
    pub proof fn lemma_retarget(self, id: TaskId, task: TaskView, after: SchedulerView)
        requires
            self.core_inv(),
            self.tasks.contains_key(id),
            self.tasks[id].state matches TaskState::Assigned(worker) && (task.state
                == TaskState::Assigned(worker) || (task.state == TaskState::Running(worker)
                && task.steal_target is None)),
            task == (TaskView { state: task.state, steal_target: task.steal_target, ..self.tasks[id] }),
            after.tasks == self.tasks.insert(id, task),
            after.workers == self.workers,
            after.worker_order == self.worker_order,
            after.ready == self.ready,
        ensures
            after.core_inv(),
    {
        reveal(SchedulerView::core_inv);
        assert(self.task_ok(id));
        assert(after.tasks.dom() =~= self.tasks.dom());
        assert forall|other: TaskId| self.is_unfinished(other) == after.is_unfinished(other) by {}
        assert forall|other: TaskId| #[trigger] after.tasks.contains_key(other) implies after.task_ok(
            other,
        ) by {
            assert(self.task_ok(other));
            let before = self.tasks[other];
            let t = after.tasks[other];
            self.lemma_unfinished_same(after, before.deps);
            assert(after.links_ok(other)) by {
                assert forall|i: int| 0 <= i < t.deps.len() implies {
                    &&& after.tasks.contains_key(#[trigger] t.deps[i])
                    &&& after.tasks[t.deps[i]].consumers.contains(other)
                } by {
                    assert(self.tasks.contains_key(before.deps[i]));
                }
                assert forall|i: int| 0 <= i < t.consumers.len() implies {
                    &&& after.tasks.contains_key(#[trigger] t.consumers[i])
                    &&& after.tasks[t.consumers[i]].deps.contains(other)
                } by {
                    assert(self.tasks.contains_key(before.consumers[i]));
                }
            }
            assert(after.locations_ok(other));
            assert(after.state_ok(other));
        }
        assert forall|n: WorkerId| #[trigger] after.workers.contains_key(n) implies after.worker_ok(n) by {
            assert(self.worker_ok(n));
            let w = after.workers[n];
            assert forall|i: int| 0 <= i < w.tasks.len() implies {
                &&& after.tasks.contains_key(#[trigger] w.tasks[i])
                &&& after.tasks[w.tasks[i]].on_worker() == Some(n)
            } by {
                assert(self.tasks.contains_key(w.tasks[i]));
            }
            assert forall|i: int| 0 <= i < w.data.len() implies {
                &&& after.tasks.contains_key(#[trigger] w.data[i])
                &&& after.tasks[w.data[i]].locations.contains(n)
            } by {
                assert(self.tasks.contains_key(w.data[i]));
            }
        }
        assert forall|i: int| 0 <= i < after.ready.len() implies after.tasks.contains_key(
            #[trigger] after.ready[i],
        ) by {
            assert(self.tasks.contains_key(self.ready[i]));
        }
    }

    /// The steals of a plan for a worker take assigned tasks of the list
    /// from that worker.
    pub proof fn lemma_plan_for(self, worker: WorkerId, list: Seq<TaskId>)
        ensures
            forall|i: int|
                0 <= i < self.plan_for(worker, list).len() ==> {
                    &&& list.contains((#[trigger] self.plan_for(worker, list)[i]).task)
                    &&& self.tasks[self.plan_for(worker, list)[i].task].state is Assigned
                    &&& self.plan_for(worker, list)[i].from == worker
                },
        decreases list.len(),
    {
        if list.len() > 0 {
            let rest = list.drop_last();
            self.lemma_plan_for(worker, rest);
            let plan = self.plan_for(worker, list);
            let inner = self.plan_for(worker, rest);
            assert forall|i: int| 0 <= i < plan.len() implies {
                &&& list.contains((#[trigger] plan[i]).task)
                &&& self.tasks[plan[i].task].state is Assigned
                &&& plan[i].from == worker
            } by {
                if i < inner.len() {
                    assert(plan[i] == inner[i]);
                    assert(rest.contains(inner[i].task));
                    let k = choose|k: int| 0 <= k < rest.len() && rest[k] == inner[i].task;
                    assert(list[k] == inner[i].task);
                } else {
                    assert(list[list.len() - 1] == list.last());
                }
            }
        }
    }

    /// The steals of a plan take known, assigned tasks.
    pub proof fn lemma_plan_over(self, order: Seq<WorkerId>)
        requires
            self.core_inv(),
            forall|i: int| 0 <= i < order.len() ==> self.workers.contains_key(#[trigger] order[i]),
        ensures
            forall|i: int|
                0 <= i < self.plan_over(order).len() ==> {
                    &&& self.tasks.contains_key((#[trigger] self.plan_over(order)[i]).task)
                    &&& self.tasks[self.plan_over(order)[i].task].state is Assigned
                },
        decreases order.len(),
    {
        if order.len() > 0 {
            let rest = order.drop_last();
            let last = order.last();
            assert(order[order.len() - 1] == last);
            assert forall|i: int| 0 <= i < rest.len() implies self.workers.contains_key(#[trigger] rest[i]) by {
                assert(rest[i] == order[i]);
            }
            self.lemma_plan_over(rest);
            self.lemma_plan_for(last, self.workers[last].tasks);
            self.lemma_worker(last);
            let plan = self.plan_over(order);
            let inner = self.plan_over(rest);
            assert forall|i: int| 0 <= i < plan.len() implies {
                &&& self.tasks.contains_key((#[trigger] plan[i]).task)
                &&& self.tasks[plan[i].task].state is Assigned
            } by {
                if i < inner.len() {
                    assert(plan[i] == inner[i]);
                } else {
                    let mine = self.plan_for(last, self.workers[last].tasks);
                    assert(plan[i] == mine[i - inner.len()]);
                    assert(self.workers[last].tasks.contains(mine[i - inner.len()].task));
                    let k = choose|k: int|
                        0 <= k < self.workers[last].tasks.len() && self.workers[last].tasks[k] == mine[i
                            - inner.len()].task;
                    assert(self.tasks.contains_key(self.workers[last].tasks[k]));
                }
            }
        }
    }

    /// Starting steals of assigned tasks keeps the graph consistent.
    pub proof fn lemma_start_steals(self, plan: Seq<StealCommand>)
        requires
            self.core_inv(),
            forall|i: int|
                0 <= i < plan.len() ==> {
                    &&& self.tasks.contains_key((#[trigger] plan[i]).task)
                    &&& self.tasks[plan[i].task].state is Assigned
                },
        ensures
            self.start_steals(plan).core_inv(),
            self.start_steals(plan).workers == self.workers,
            self.start_steals(plan).worker_order == self.worker_order,
            self.start_steals(plan).ready == self.ready,
            self.start_steals(plan).kind == self.kind,
            self.start_steals(plan).alpha == self.alpha,
            self.start_steals(plan).beta == self.beta,
            self.start_steals(plan).epsilon == self.epsilon,
            self.start_steals(plan).tasks.dom() == self.tasks.dom(),
            forall|id: TaskId| #[trigger]
                self.tasks.contains_key(id) ==> self.start_steals(plan).tasks[id] == (TaskView {
                    steal_target: self.start_steals(plan).tasks[id].steal_target,
                    ..self.tasks[id]
                }),
        decreases plan.len(),
    {
        if plan.len() > 0 {
            let rest = plan.drop_last();
            let last = plan.last();
            assert(plan[plan.len() - 1] == last);
            assert forall|i: int| 0 <= i < rest.len() implies {
                &&& self.tasks.contains_key((#[trigger] rest[i]).task)
                &&& self.tasks[rest[i].task].state is Assigned
            } by {
                assert(rest[i] == plan[i]);
            }
            self.lemma_start_steals(rest);
            let before = self.start_steals(rest);
            let after = before.start_steal(last);
            assert(before.tasks.contains_key(last.task));
            before.lemma_retarget(last.task, after.tasks[last.task], after);
            assert(after.tasks.dom() =~= self.tasks.dom());
        }
    }

    /// The passing of time keeps the scheduler consistent.
    pub proof fn lemma_tick(self)
        requires
            self.inv(),
        ensures
            self.tick().inv(),
    {
        match self.kind {
            SchedulerType::Workstealing => {
                self.lemma_order();
                self.lemma_plan_over(self.worker_order);
            },
            SchedulerType::Random => {},
        }
        self.lemma_start_steals(self.rebalance());
    }

    /// The answer of `worker` about a steal of the task `id` can be taken
    /// in: the task is assigned to that worker and a steal is in flight.
    pub open spec fn steal_applies(self, worker: WorkerId, id: TaskId) -> bool {
        &&& self.tasks.contains_key(id)
        &&& self.tasks[id].state == TaskState::Assigned(worker)
        &&& self.tasks[id].steal_target is Some
    }

    /// The graph after the ready task `id` has been sent to `worker`.
    pub open spec fn assign_ready(self, id: TaskId, worker: WorkerId) -> SchedulerView {
        SchedulerView { ready: without(self.ready, id), ..self.assign_to(id, worker) }
    }

    /// The graph after the steal in flight for the task `id` has ended
    /// without effect.
    pub open spec fn end_steal(self, id: TaskId) -> SchedulerView {
        SchedulerView {
            tasks: self.tasks.insert(id, TaskView { steal_target: None, ..self.tasks[id] }),
            ..self
        }
    }

    /// The graph after the scheduler has learnt that the task `id` runs on
    /// the worker it was assigned to.
    pub open spec fn now_running(self, id: TaskId) -> SchedulerView {
        SchedulerView {
            tasks: self.tasks.insert(
                id,
                TaskView {
                    state: TaskState::Running(self.tasks[id].on_worker().unwrap()),
                    steal_target: None,
                    ..self.tasks[id]
                },
            ),
            ..self
        }
    }

    /// The graph after the worker has given up the task `id`: the task is
    /// sent to the target of the steal, or is ready to be placed anew if
    /// that worker is gone.
    pub open spec fn stolen(self, id: TaskId) -> SchedulerView {
        let target = self.tasks[id].steal_target.unwrap();
        if self.workers.contains_key(target) {
            self.requeue(id).assign_ready(id, target)
        } else {
            self.requeue(id)
        }
    }

    /// The scheduler after `worker` has answered a steal of the task `id`.
    /// A task that was given up goes to the target of the steal. A task
    /// that runs is known to run from now on and stays. A task that is not
    /// there stays as it is. In each case the steal is no longer in flight.
    /// An answer that was not waited for changes nothing.
    pub open spec fn task_steal_response(self, worker: WorkerId, id: TaskId, response: StealResponse) -> SchedulerView {
        if self.steal_applies(worker, id) {
            match response {
                StealResponse::Success => self.stolen(id).place_ready(),
                StealResponse::Running => self.now_running(id),
                StealResponse::NotHere => self.end_steal(id),
            }
        } else {
            self
        }
    }

    /// Sending a ready task to a worker keeps the graph consistent.
    pub proof fn lemma_assign_ready(self, id: TaskId, worker: WorkerId)
        requires
            self.core_inv(),
            self.ready.contains(id),
            self.workers.contains_key(worker),
        ensures
            self.assign_ready(id, worker).core_inv(),
            self.assign_ready(id, worker).worker_order == self.worker_order,
    {
        reveal(SchedulerView::core_inv);
        let k = choose|k: int| 0 <= k < self.ready.len() && self.ready[k] == id;
        assert(self.tasks.contains_key(self.ready[k]));
        assert(self.task_ok(id));
        let task = self.tasks[id];
        let after = self.assign_ready(id, worker);
        assert(self.worker_ok(worker));
        assert(!self.workers[worker].tasks.contains(id)) by {
            if self.workers[worker].tasks.contains(id) {
                let i = choose|i: int|
                    0 <= i < self.workers[worker].tasks.len() && self.workers[worker].tasks[i] == id;
                assert(self.tasks[self.workers[worker].tasks[i]].on_worker() == Some(worker));
            }
        }
        lemma_push_new(self.workers[worker].tasks, id);
        lemma_without(self.ready, id);
        assert(after.tasks.dom() =~= self.tasks.dom());
        assert forall|other: TaskId| self.is_unfinished(other) == after.is_unfinished(other) by {}
        assert forall|other: TaskId| #[trigger] after.tasks.contains_key(other) implies after.task_ok(
            other,
        ) by {
            assert(self.tasks.contains_key(other));
            assert(self.task_ok(other));
            self.lemma_unfinished_same(after, self.tasks[other].deps);
            assert(after.links_ok(other));
            assert(after.locations_ok(other)) by {
                let t = after.tasks[other];
                assert forall|i: int| 0 <= i < t.locations.len() implies {
                    &&& after.workers.contains_key(#[trigger] t.locations[i])
                    &&& after.workers[t.locations[i]].data.contains(other)
                } by {
                    assert(self.workers.contains_key(self.tasks[other].locations[i]));
                }
            }
            assert(after.state_ok(other));
        }
        assert forall|node: WorkerId| #[trigger] after.workers.contains_key(node) implies after.worker_ok(
            node,
        ) by {
            assert(self.workers.contains_key(node));
            assert(self.worker_ok(node));
            let n = after.workers[node];
            assert forall|i: int| 0 <= i < n.tasks.len() implies {
                &&& after.tasks.contains_key(#[trigger] n.tasks[i])
                &&& after.tasks[n.tasks[i]].on_worker() == Some(node)
            } by {
                if node == worker && i == self.workers[worker].tasks.len() {
                } else {
                    assert(n.tasks[i] == self.workers[node].tasks[i]);
                    assert(self.tasks[self.workers[node].tasks[i]].on_worker() == Some(node));
                }
            }
            assert forall|i: int| 0 <= i < n.data.len() implies {
                &&& after.tasks.contains_key(#[trigger] n.data[i])
                &&& after.tasks[n.data[i]].locations.contains(node)
            } by {
                assert(self.tasks.contains_key(self.workers[node].data[i]));
            }
        }
        assert forall|i: int| 0 <= i < after.ready.len() implies after.tasks.contains_key(
            #[trigger] after.ready[i],
        ) by {
            let x = after.ready[i];
            assert(after.ready.contains(x));
            assert(self.ready.contains(x));
            let j = choose|j: int| 0 <= j < self.ready.len() && self.ready[j] == x;
            assert(self.tasks.contains_key(self.ready[j]));
        }
    }

    /// A task that was given up keeps the graph consistent.
    pub proof fn lemma_stolen(self, id: TaskId)
        requires
            self.core_inv(),
            self.tasks.contains_key(id),
            self.tasks[id].state is Assigned,
            self.tasks[id].steal_target is Some,
        ensures
            self.stolen(id).core_inv(),
            self.requeue(id).core_inv(),
            self.requeue(id).ready.contains(id),
            self.requeue(id).workers.dom() == self.workers.dom(),
    {
        self.lemma_requeue(id);
        self.lemma_task(id);
        let requeued = self.requeue(id);
        assert(requeued.ready[self.ready.len() as int] == id);
        let target = self.tasks[id].steal_target.unwrap();
        if self.workers.contains_key(target) {
            requeued.lemma_assign_ready(id, target);
        }
    }

    /// The answer to a steal keeps the scheduler consistent.
    pub proof fn lemma_task_steal_response(self, worker: WorkerId, id: TaskId, response: StealResponse)
        requires
            self.inv(),
        ensures
            self.task_steal_response(worker, id, response).inv(),
            self.steal_applies(worker, id) ==> self.now_running(id).core_inv() && self.end_steal(
                id,
            ).core_inv(),
    {
        if self.steal_applies(worker, id) {
            self.lemma_stolen(id);
            self.stolen(id).lemma_place_ready();
            self.lemma_retarget(id, self.now_running(id).tasks[id], self.now_running(id));
            self.lemma_retarget(id, self.end_steal(id).tasks[id], self.end_steal(id));
        }
    }

    /// The scheduler after its outbox has been emptied.
    pub open spec fn without_outputs(self) -> SchedulerView {
        SchedulerView { outbox: Seq::empty(), ..self }
    }

    /// Consistency does not depend on the outbox.
    pub proof fn lemma_without_outputs(self)
        requires
            self.inv(),
        ensures
            self.without_outputs().inv(),
    {
        let after = self.without_outputs();
        assert(after.tasks.dom() =~= self.tasks.dom());
        self.lemma_same_graph(after);
    }

    /// The scheduler after the event.
    pub open spec fn step(self, event: EventView) -> SchedulerView {
        match event {
            EventView::TaskSubmit { id, deps, priority, size } => self.task_submit(
                id,
                deps,
                priority,
                size,
            ),
            EventView::TaskFinished { worker, id, size } => self.task_finished(worker, id, size),
            EventView::TaskErred { worker, id } => self.task_erred(worker, id),
            EventView::TaskStealResponse { worker, id, response } => self.task_steal_response(
                worker,
                id,
                response,
            ),
            EventView::DataRemoved { worker, id } => self.data_removed(worker, id),
            EventView::DataDownloaded { worker, id } => self.data_downloaded(worker, id),
            EventView::DataUnavailable { id } => self.data_unavailable(id),
            EventView::WorkerAdded { id, address, ncpus } => self.worker_added(id, address, ncpus),
            EventView::WorkerLost { id } => self.worker_lost(id),
            EventView::ClientRelease { id } => self.client_release(id),
            EventView::Tick => self.tick(),
        }
    }

    /// The bytes to move are the same in two graphs in which the results of
    /// `deps` have the same sizes and locations.
    pub proof fn lemma_remote_bytes_same(self, other: SchedulerView, worker: WorkerId, deps: Seq<TaskId>)
        requires
            forall|i: int|
                0 <= i < deps.len() ==> self.tasks[#[trigger] deps[i]].locations
                    == other.tasks[deps[i]].locations && self.tasks[deps[i]].size
                    == other.tasks[deps[i]].size,
        ensures
            self.remote_bytes(worker, deps) == other.remote_bytes(worker, deps),
        decreases deps.len(),
    {
        if deps.len() > 0 {
            let rest = deps.drop_last();
            assert forall|i: int| 0 <= i < rest.len() implies self.tasks[#[trigger] rest[i]].locations
                == other.tasks[rest[i]].locations && self.tasks[rest[i]].size
                == other.tasks[rest[i]].size by {
                assert(rest[i] == deps[i]);
            }
            self.lemma_remote_bytes_same(other, worker, rest);
            assert(deps.last() == deps[deps.len() - 1]);
        }
    }

    /// A plan for a worker is empty when no task of the list has a better
    /// place, and names every task of the list that has one.
    pub proof fn lemma_plan_for_complete(self, worker: WorkerId, list: Seq<TaskId>)
        ensures
            (forall|i: int| 0 <= i < list.len() ==> self.better_place(worker, #[trigger] list[i]) is None)
                ==> self.plan_for(worker, list).len() == 0,
            forall|i: int|
                0 <= i < list.len() && self.better_place(worker, #[trigger] list[i]) is Some
                    ==> exists|k: int|
                    0 <= k < self.plan_for(worker, list).len() && (#[trigger] self.plan_for(
                        worker,
                        list,
                    )[k]).task == list[i],
        decreases list.len(),
    {
        if list.len() > 0 {
            let rest = list.drop_last();
            let last = list.last();
            self.lemma_plan_for_complete(worker, rest);
            let plan = self.plan_for(worker, list);
            let inner = self.plan_for(worker, rest);
            assert(list[list.len() - 1] == last);
            if forall|i: int| 0 <= i < list.len() ==> self.better_place(worker, #[trigger] list[i]) is None {
                assert forall|i: int| 0 <= i < rest.len() implies self.better_place(
                    worker,
                    #[trigger] rest[i],
                ) is None by {
                    assert(rest[i] == list[i]);
                }
            }
            assert forall|i: int|
                0 <= i < list.len() && self.better_place(worker, #[trigger] list[i]) is Some implies exists|
                k: int,
            | 0 <= k < plan.len() && (#[trigger] plan[k]).task == list[i] by {
                if i < rest.len() {
                    assert(rest[i] == list[i]);
                    let k = choose|k: int| 0 <= k < inner.len() && (#[trigger] inner[k]).task == rest[i];
                    assert(plan[k] == inner[k]);
                } else {
                    assert(plan[inner.len() as int].task == last);
                }
            }
        }
    }

    /// A plan is empty when no task of an overloaded worker has a better
    /// place, and names every task of an overloaded worker that has one.
    pub proof fn lemma_plan_over_complete(self, order: Seq<WorkerId>)
        ensures
            (forall|i: int, j: int|
                0 <= i < order.len() && self.overloaded(order[i]) && 0 <= j
                    < self.workers[order[i]].tasks.len() ==> self.better_place(
                    #[trigger] order[i],
                    #[trigger] self.workers[order[i]].tasks[j],
                ) is None) ==> self.plan_over(order).len() == 0,
            forall|i: int, j: int|
                0 <= i < order.len() && self.overloaded(order[i]) && 0 <= j
                    < self.workers[order[i]].tasks.len() && self.better_place(
                    #[trigger] order[i],
                    #[trigger] self.workers[order[i]].tasks[j],
                ) is Some ==> exists|k: int|
                    0 <= k < self.plan_over(order).len() && (#[trigger] self.plan_over(order)[k]).task
                        == self.workers[order[i]].tasks[j],
        decreases order.len(),
    {
        if order.len() > 0 {
            let rest = order.drop_last();
            let last = order.last();
            assert(order[order.len() - 1] == last);
            self.lemma_plan_over_complete(rest);
            self.lemma_plan_for_complete(last, self.workers[last].tasks);
            let plan = self.plan_over(order);
            let inner = self.plan_over(rest);
            let mine = self.plan_for(last, self.workers[last].tasks);
            if forall|i: int, j: int|
                0 <= i < order.len() && self.overloaded(order[i]) && 0 <= j
                    < self.workers[order[i]].tasks.len() ==> self.better_place(
                    #[trigger] order[i],
                    #[trigger] self.workers[order[i]].tasks[j],
                ) is None {
                assert forall|i: int, j: int|
                    0 <= i < rest.len() && self.overloaded(rest[i]) && 0 <= j
                        < self.workers[rest[i]].tasks.len() implies self.better_place(
                    #[trigger] rest[i],
                    #[trigger] self.workers[rest[i]].tasks[j],
                ) is None by {
                    assert(rest[i] == order[i]);
                    assert(self.better_place(order[i], self.workers[order[i]].tasks[j]) is None);
                }
                if self.overloaded(last) {
                    assert forall|j: int| 0 <= j < self.workers[last].tasks.len() implies self.better_place(
                        last,
                        #[trigger] self.workers[last].tasks[j],
                    ) is None by {
                        assert(self.better_place(
                            order[order.len() - 1],
                            self.workers[order[order.len() - 1]].tasks[j],
                        ) is None);
                    }
                }
            }
            assert forall|i: int, j: int|
                0 <= i < order.len() && self.overloaded(order[i]) && 0 <= j
                    < self.workers[order[i]].tasks.len() && self.better_place(
                    #[trigger] order[i],
                    #[trigger] self.workers[order[i]].tasks[j],
                ) is Some implies exists|k: int|
                0 <= k < plan.len() && (#[trigger] plan[k]).task == self.workers[order[i]].tasks[j] by {
                let id = self.workers[order[i]].tasks[j];
                if i < rest.len() {
                    assert(rest[i] == order[i]);
                    assert(self.better_place(rest[i], self.workers[rest[i]].tasks[j]) is Some);
                    let k = choose|k: int| 0 <= k < inner.len() && (#[trigger] inner[k]).task == id;
                    assert(plan[k] == inner[k]);
                } else {
                    let k = choose|k: int| 0 <= k < mine.len() && (#[trigger] mine[k]).task == id;
                    assert(plan[inner.len() + k] == mine[k]);
                }
            }
        }
    }

    /// After the steals of a plan have been started, a steal is in flight
    /// for each task of the plan.
    pub proof fn lemma_steals_in_flight(self, plan: Seq<StealCommand>)
        ensures
            forall|i: int|
                0 <= i < plan.len() ==> self.start_steals(plan).tasks[(#[trigger] plan[i]).task].steal_target
                    is Some,
            forall|id: TaskId|
                self.tasks[id].steal_target is Some ==> #[trigger] self.start_steals(
                    plan,
                ).tasks[id].steal_target is Some,
        decreases plan.len(),
    {
        if plan.len() > 0 {
            let rest = plan.drop_last();
            self.lemma_steals_in_flight(rest);
            let before = self.start_steals(rest);
            let after = self.start_steals(plan);
            assert forall|i: int| 0 <= i < plan.len() implies after.tasks[(#[trigger] plan[i]).task].steal_target
                is Some by {
                if i < rest.len() {
                    assert(rest[i] == plan[i]);
                    assert(before.tasks[rest[i].task].steal_target is Some);
                }
            }
        }
    }

    /// Steals are started once: when the steals that rebalance the workers
    /// have been started, a steal is in flight for each of their tasks, for
    /// which none was in flight before; and as long as nothing else happens,
    /// no further steal is planned.
    pub proof fn lemma_steals_start_once(self)
        requires
            self.inv(),
        ensures
            self.tick().rebalance() == Seq::<StealCommand>::empty(),
            forall|i: int|
                0 <= i < self.rebalance().len() ==> {
                    &&& self.tasks[(#[trigger] self.rebalance()[i]).task].steal_target is None
                    &&& self.tick().tasks[self.rebalance()[i].task].steal_target is Some
                },
    {
        let plan = self.rebalance();
        let after = self.tick();
        self.lemma_tick();
        self.lemma_steals_in_flight(plan);
        match self.kind {
            SchedulerType::Random => {
                assert(after.rebalance() =~= Seq::<StealCommand>::empty());
            },
            SchedulerType::Workstealing => {
                self.lemma_order();
                self.lemma_plan_over(self.worker_order);
                self.lemma_start_steals(plan);
                self.lemma_plan_over_complete(self.worker_order);
                after.lemma_plan_over_complete(after.worker_order);
                self.lemma_plan_in_order(self.worker_order);
                assert forall|i: int, j: int|
                    0 <= i < after.worker_order.len() && after.overloaded(after.worker_order[i]) && 0 <= j
                        < after.workers[after.worker_order[i]].tasks.len() implies after.better_place(
                    #[trigger] after.worker_order[i],
                    #[trigger] after.workers[after.worker_order[i]].tasks[j],
                ) is None by {
                    let worker = self.worker_order[i];
                    let id = self.workers[worker].tasks[j];
                    self.lemma_worker(worker);
                    assert(self.tasks.contains_key(self.workers[worker].tasks[j]));
                    self.lemma_total_load_same(after, self.worker_order);
                    assert(self.overloaded(worker));
                    if self.better_place(worker, id) is Some {
                        assert(self.better_place(self.worker_order[i], self.workers[self.worker_order[i]].tasks[j])
                            is Some);
                        let k = choose|k: int| 0 <= k < plan.len() && (#[trigger] plan[k]).task == id;
                        assert(after.tasks[plan[k].task].steal_target is Some);
                    } else {
                        self.lemma_better_place_same(after, worker, id);
                    }
                }
                assert(after.rebalance() =~= Seq::<StealCommand>::empty());
            },
        }
    }

    /// The steals of a plan are for tasks without a steal in flight.
    pub proof fn lemma_plan_in_order(self, order: Seq<WorkerId>)
        ensures
            forall|i: int|
                0 <= i < self.plan_over(order).len() ==> self.tasks[(#[trigger] self.plan_over(
                    order,
                )[i]).task].steal_target is None,
        decreases order.len(),
    {
        if order.len() > 0 {
            let rest = order.drop_last();
            let last = order.last();
            self.lemma_plan_in_order(rest);
            self.lemma_plan_for_idle(last, self.workers[last].tasks);
            let plan = self.plan_over(order);
            let inner = self.plan_over(rest);
            assert forall|i: int| 0 <= i < plan.len() implies self.tasks[(#[trigger] plan[i]).task].steal_target
                is None by {
                if i < inner.len() {
                    assert(plan[i] == inner[i]);
                } else {
                    let mine = self.plan_for(last, self.workers[last].tasks);
                    assert(plan[i] == mine[i - inner.len()]);
                }
            }
        }
    }

    /// The steals of a plan for a worker are for tasks without a steal in
    /// flight.
    pub proof fn lemma_plan_for_idle(self, worker: WorkerId, list: Seq<TaskId>)
        ensures
            forall|i: int|
                0 <= i < self.plan_for(worker, list).len() ==> self.tasks[(#[trigger] self.plan_for(
                    worker,
                    list,
                )[i]).task].steal_target is None,
        decreases list.len(),
    {
        if list.len() > 0 {
            let rest = list.drop_last();
            self.lemma_plan_for_idle(worker, rest);
            let plan = self.plan_for(worker, list);
            let inner = self.plan_for(worker, rest);
            assert forall|i: int| 0 <= i < plan.len() implies self.tasks[(#[trigger] plan[i]).task].steal_target
                is None by {
                if i < inner.len() {
                    assert(plan[i] == inner[i]);
                }
            }
        }
    }

    /// The loads add up alike in two graphs with the same workers.
    pub proof fn lemma_total_load_same(self, other: SchedulerView, order: Seq<WorkerId>)
        requires
            self.workers == other.workers,
        ensures
            self.total_load(order) == other.total_load(order),
        decreases order.len(),
    {
        if order.len() > 0 {
            self.lemma_total_load_same(other, order.drop_last());
        }
    }

    /// A task that had no better place has none after steals of other
    /// tasks have been started.
    pub proof fn lemma_better_place_same(self, other: SchedulerView, worker: WorkerId, id: TaskId)
        requires
            self.core_inv(),
            other.core_inv(),
            self.kind == SchedulerType::Workstealing,
            self.worker_order.len() > 0,
            self.tasks.contains_key(id),
            other.workers == self.workers,
            other.worker_order == self.worker_order,
            other.alpha == self.alpha,
            other.beta == self.beta,
            other.epsilon == self.epsilon,
            other.kind == self.kind,
            other.tasks.dom() == self.tasks.dom(),
            forall|task: TaskId| #[trigger]
                self.tasks.contains_key(task) ==> other.tasks[task] == (TaskView {
                    steal_target: other.tasks[task].steal_target,
                    ..self.tasks[task]
                }),
            self.tasks[id].steal_target is Some ==> other.tasks[id].steal_target is Some,
            self.better_place(worker, id) is None,
        ensures
            other.better_place(worker, id) is None,
    {
        let deps = self.tasks[id].deps;
        self.lemma_task(id);
        self.lemma_pick_target(deps);
        other.lemma_pick_target(deps);
        let mine = choose|target: WorkerId| self.is_cheapest(target, deps);
        let theirs = choose|target: WorkerId| other.is_cheapest(target, deps);
        assert forall|w: WorkerId| self.cost(w, deps) == other.cost(w, deps) by {
            self.lemma_remote_bytes_same(other, w, deps);
        }
        assert(self.is_cheapest(theirs, deps));
        self.lemma_cheapest_unique(mine, theirs, deps);
    }
}

} // verus!
