//! How tasks move between the scheduler and the workers: what a
//! submission, the end of a task, a tick, the answer to a steal, a release
//! and the loss of a result or of a worker write into the outbox, and where
//! the tasks are afterwards.

use crate::common::{PriorityValue, TaskId, WorkerId};
use crate::idlist::{lemma_count_bound, lemma_without, without};
use crate::scheduler::kind::SchedulerType;
use crate::scheduler::laws::assigned_at;
use crate::scheduler::messages::{EventView, OutputView};
use crate::scheduler::locations::{failure_kept, location_kept};
use crate::scheduler::model::SchedulerView;
use crate::scheduler::recovery::lemma_without_all;
use crate::scheduler::stealing::StealCommand;
use crate::scheduler::task::{TaskState, TaskView};
use crate::worker::messages::StealResponse;
use vstd::prelude::*;

verus! {

impl SchedulerView {
    /// What a placement tells the worker: the output that sends the oldest
    /// ready task names the worker that the policy picks, the priority of
    /// the task, and each dependency with its size and with the workers
    /// that hold it.
    pub proof fn lemma_placement_names_holders(self)
        requires
            self.core_inv(),
            self.worker_order.len() > 0,
            self.ready.len() > 0,
        ensures
            self.pick_target(self.tasks[self.ready[0]].deps) is Some,
            self.place_first().outbox == self.outbox.push(
                OutputView::Assign {
                    worker: self.pick_target(self.tasks[self.ready[0]].deps).unwrap(),
                    task: self.ready[0],
                    priority: self.tasks[self.ready[0]].priority,
                    deps: self.dependency_info(self.tasks[self.ready[0]].deps),
                },
            ),
            self.place_first().tasks[self.ready[0]].state == TaskState::Assigned(
                self.pick_target(self.tasks[self.ready[0]].deps).unwrap(),
            ),
    {
        self.lemma_pick_target(self.tasks[self.ready[0]].deps);
    }

    /// A submission does not change where the policy would place a task
    /// that reads known results.
    pub proof fn lemma_pick_after_enter(
        self,
        id: TaskId,
        deps: Seq<TaskId>,
        priority: PriorityValue,
        size: Option<u64>,
    )
        requires
            self.core_inv(),
            self.submit_applies(id, deps),
            deps.len() <= usize::MAX,
            self.worker_order.len() > 0,
        ensures
            self.enter_task(id, deps, priority, size).pick_target(deps) == self.pick_target(deps),
            self.enter_task(id, deps, priority, size).dependency_info(deps) == self.dependency_info(
                deps,
            ),
    {
        let entered = self.enter_task(id, deps, priority, size);
        self.lemma_enter_task(id, deps, priority, size);
        assert forall|i: int| 0 <= i < deps.len() implies entered.tasks[#[trigger] deps[i]].locations
            == self.tasks[deps[i]].locations && entered.tasks[deps[i]].size
            == self.tasks[deps[i]].size by {
            assert(self.tasks.contains_key(deps[i]));
        }
        assert(entered.dependency_info(deps) =~= self.dependency_info(deps));
        match self.kind {
            SchedulerType::Workstealing => {
                entered.lemma_pick_target(deps);
                self.lemma_pick_target(deps);
                let there = entered.pick_target(deps).unwrap();
                assert forall|other: WorkerId| self.cost(other, deps) == entered.cost(other, deps) by {
                    entered.lemma_remote_bytes_same(self, other, deps);
                }
                assert(self.is_cheapest(there, deps));
                self.lemma_cheapest_unique(there, self.pick_target(deps).unwrap(), deps);
            },
            SchedulerType::Random => {
                self.lemma_capacity_of(entered, self.worker_order);
            },
        }
    }

    /// The workers with a core to spare are the same in two graphs with the
    /// same workers.
    pub proof fn lemma_capacity_of(self, other: SchedulerView, order: Seq<WorkerId>)
        requires
            self.workers == other.workers,
        ensures
            self.with_capacity(order) == other.with_capacity(order),
        decreases order.len(),
    {
        if order.len() > 0 {
            self.lemma_capacity_of(other, order.drop_last());
        }
    }

    /// A task that has to wait is not sent anywhere: the submission of a
    /// task that reads a result which is not there yet enters the task,
    /// waiting for as many results as are missing, and writes no output.
    pub proof fn lemma_submit_waits(
        self,
        id: TaskId,
        deps: Seq<TaskId>,
        priority: PriorityValue,
        size: Option<u64>,
    )
        requires
            self.inv(),
            self.submit_applies(id, deps),
            self.unfinished_deps(deps) > 0,
        ensures
            self.step(EventView::TaskSubmit { id, deps, priority, size }) == self.enter_task(
                id,
                deps,
                priority,
                size,
            ),
            self.step(EventView::TaskSubmit { id, deps, priority, size }).outbox == self.outbox,
            self.step(EventView::TaskSubmit { id, deps, priority, size }).tasks[id].state
                == TaskState::Waiting(self.unfinished_deps(deps) as usize),
    {
    }

    /// A task that waits for nothing is sent at once: with a worker at hand,
    /// the submission of a task whose dependencies are all finished writes
    /// one output and no more. It sends the task to the worker that the
    /// policy picks and names each dependency with its size and with the
    /// workers that hold it.
    pub proof fn lemma_submit_ready(
        self,
        id: TaskId,
        deps: Seq<TaskId>,
        priority: PriorityValue,
        size: Option<u64>,
    )
        requires
            self.inv(),
            self.submit_applies(id, deps),
            deps.len() <= usize::MAX,
            self.unfinished_deps(deps) == 0,
            self.worker_order.len() > 0,
        ensures
            self.pick_target(deps) is Some,
            self.step(EventView::TaskSubmit { id, deps, priority, size }).outbox == self.outbox.push(
                OutputView::Assign {
                    worker: self.pick_target(deps).unwrap(),
                    task: id,
                    priority: (priority, self.next_priority),
                    deps: self.dependency_info(deps),
                },
            ),
            self.step(EventView::TaskSubmit { id, deps, priority, size }).tasks[id].state
                == TaskState::Assigned(self.pick_target(deps).unwrap()),
    {
        let entered = self.enter_task(id, deps, priority, size);
        self.lemma_enter_task(id, deps, priority, size);
        self.lemma_pick_after_enter(id, deps, priority, size);
        self.lemma_pick_target(deps);
        assert(entered.ready =~= Seq::empty().push(id));
        assert(entered.ready.first() == id);
        let placed = entered.place_first();
        assert(placed.ready =~= Seq::empty());
        assert(entered.place_ready() == placed.place_ready());
        assert(placed.place_ready() == placed);
    }

    /// The bytes to bring to `worker` for a task that reads the results
    /// `left` and `right`.
    pub proof fn lemma_remote_bytes_of_two(self, worker: WorkerId, left: TaskId, right: TaskId)
        ensures
            self.remote_bytes(worker, Seq::empty().push(left).push(right)) == (if self.tasks[left].locations.contains(
                worker,
            ) {
                0nat
            } else {
                self.size_of(left) as nat
            }) + (if self.tasks[right].locations.contains(worker) {
                0nat
            } else {
                self.size_of(right) as nat
            }),
    {
        let none = Seq::<TaskId>::empty();
        let one = none.push(left);
        let two = one.push(right);
        assert(two.drop_last() =~= one);
        assert(one.drop_last() =~= none);
        assert(two.last() == right);
        assert(one.last() == left);
        assert(self.remote_bytes(worker, none) == 0);
        assert(self.remote_bytes(worker, one) == self.remote_bytes(worker, none) + if self.tasks[left].locations.contains(
            worker,
        ) {
            0nat
        } else {
            self.size_of(left) as nat
        });
    }

    /// Fan-in placement: two workers carry the same load, the result `left`
    /// is on the first of them only and the result `right` on the second
    /// only. The work-stealing policy then places a task that reads both
    /// where the larger result is, so that the smaller one is moved; with
    /// results of one size it takes the worker with the smaller identifier.
    pub proof fn lemma_fan_in_placement(
        self,
        first: WorkerId,
        second: WorkerId,
        left: TaskId,
        right: TaskId,
    )
        requires
            self.inv(),
            self.kind == SchedulerType::Workstealing,
            self.beta > 0,
            first < second,
            forall|worker: WorkerId|
                self.workers.contains_key(worker) <==> worker == first || worker == second,
            self.workers[first].load() == self.workers[second].load(),
            self.tasks[left].locations == Seq::<WorkerId>::empty().push(first),
            self.tasks[right].locations == Seq::<WorkerId>::empty().push(second),
        ensures
            self.remote_bytes(first, Seq::empty().push(left).push(right)) == self.size_of(right),
            self.remote_bytes(second, Seq::empty().push(left).push(right)) == self.size_of(left),
            self.pick_target(Seq::empty().push(left).push(right)) == Some(
                if self.size_of(right) <= self.size_of(left) {
                    first
                } else {
                    second
                },
            ),
    {
        let deps = Seq::<TaskId>::empty().push(left).push(right);
        let at_first = Seq::<WorkerId>::empty().push(first);
        let at_second = Seq::<WorkerId>::empty().push(second);
        self.lemma_remote_bytes_of_two(first, left, right);
        self.lemma_remote_bytes_of_two(second, left, right);
        assert(at_first.contains(first)) by {
            assert(at_first[0] == first);
        }
        assert(at_second.contains(second)) by {
            assert(at_second[0] == second);
        }
        assert(!at_first.contains(second));
        assert(!at_second.contains(first));
        let load = self.workers[first].load();
        let small = self.size_of(right) as int;
        let large = self.size_of(left) as int;
        assert(self.cost(first, deps) == self.alpha * load + self.beta * small);
        assert(self.cost(second, deps) == self.alpha * load + self.beta * large);
        let beta = self.beta as int;
        assert(small <= large ==> beta * small <= beta * large) by (nonlinear_arith)
            requires
                beta > 0,
        ;
        assert(large < small ==> beta * large < beta * small) by (nonlinear_arith)
            requires
                beta > 0,
        ;
        let best = if self.size_of(right) <= self.size_of(left) {
            first
        } else {
            second
        };
        assert(self.workers.contains_key(first));
        assert(self.is_cheapest(best, deps));
        self.lemma_worker(first);
        self.lemma_pick_target(deps);
        self.lemma_cheapest_unique(best, self.pick_target(deps).unwrap(), deps);
    }

    /// A task is with a worker only while all it reads can be fetched:
    /// after every event, each dependency of an assigned task is finished,
    /// and its result is on at least one worker, all of them connected.
    pub proof fn lemma_assigned_reads_finished(self, event: EventView, id: TaskId, i: int)
        requires
            self.inv(),
            event matches EventView::TaskSubmit { deps, .. } ==> deps.len() <= usize::MAX,
            self.step(event).tasks.contains_key(id),
            self.step(event).tasks[id].state is Assigned,
            0 <= i < self.step(event).tasks[id].deps.len(),
        ensures
            self.step(event).tasks.contains_key(self.step(event).tasks[id].deps[i]),
            self.step(event).tasks[self.step(event).tasks[id].deps[i]].state is Finished,
            self.step(event).tasks[self.step(event).tasks[id].deps[i]].locations.len() > 0,
            forall|k: int|
                0 <= k < self.step(event).tasks[self.step(event).tasks[id].deps[i]].locations.len()
                    ==> self.step(event).workers.contains_key(
                    #[trigger] self.step(event).tasks[self.step(event).tasks[id].deps[i]].locations[k],
                ),
    {
        self.lemma_step_keeps_inv(event);
        let after = self.step(event);
        let deps = after.tasks[id].deps;
        after.lemma_task(id);
        lemma_count_bound(deps, |dep: TaskId| after.is_unfinished(dep));
        assert(!after.is_unfinished(deps[i]));
        after.lemma_task(deps[i]);
    }

    /// Work and results are with connected workers only: after every event,
    /// the worker on which a task is, and each worker that holds its
    /// result, is connected.
    pub proof fn lemma_on_connected_workers(self, event: EventView, id: TaskId, worker: WorkerId)
        requires
            self.inv(),
            event matches EventView::TaskSubmit { deps, .. } ==> deps.len() <= usize::MAX,
            self.step(event).tasks.contains_key(id),
            self.step(event).tasks[id].on_worker() == Some(worker) || self.step(
                event,
            ).tasks[id].locations.contains(worker),
        ensures
            self.step(event).workers.contains_key(worker),
            self.step(event).worker_order.contains(worker),
    {
        self.lemma_step_keeps_inv(event);
        let after = self.step(event);
        after.lemma_task(id);
        if after.tasks[id].locations.contains(worker) {
            let k = choose|k: int|
                0 <= k < after.tasks[id].locations.len() && after.tasks[id].locations[k] == worker;
            assert(after.workers.contains_key(after.tasks[id].locations[k]));
        }
        after.lemma_worker(worker);
    }

    /// The requests that the steals of `plan` send to the workers.
    pub open spec fn steal_requests(plan: Seq<StealCommand>) -> Seq<OutputView> {
        Seq::new(plan.len(), |i: int| OutputView::Steal { worker: plan[i].from, task: plan[i].task })
    }

    /// Starting steals writes one request for each, in their order, and
    /// nothing else.
    pub proof fn lemma_steals_written(self, plan: Seq<StealCommand>)
        ensures
            self.start_steals(plan).outbox == self.outbox + Self::steal_requests(plan),
        decreases plan.len(),
    {
        if plan.len() > 0 {
            self.lemma_steals_written(plan.drop_last());
            assert(self.start_steals(plan).outbox =~= self.outbox + Self::steal_requests(plan));
        } else {
            assert(self.outbox =~= self.outbox + Self::steal_requests(plan));
        }
    }

    /// Each steal of a plan takes its task from the worker on which the
    /// task is.
    pub proof fn lemma_plan_from(self, order: Seq<WorkerId>)
        requires
            self.core_inv(),
            forall|i: int| 0 <= i < order.len() ==> self.workers.contains_key(#[trigger] order[i]),
        ensures
            forall|i: int|
                0 <= i < self.plan_over(order).len() ==> self.tasks[(#[trigger] self.plan_over(
                    order,
                )[i]).task].on_worker() == Some(self.plan_over(order)[i].from),
        decreases order.len(),
    {
        if order.len() > 0 {
            let rest = order.drop_last();
            let last = order.last();
            assert(order[order.len() - 1] == last);
            assert forall|i: int| 0 <= i < rest.len() implies self.workers.contains_key(#[trigger] rest[i]) by {
                assert(rest[i] == order[i]);
            }
            self.lemma_plan_from(rest);
            self.lemma_worker(last);
            self.lemma_plan_for(last, self.workers[last].tasks);
            let plan = self.plan_over(order);
            let inner = self.plan_over(rest);
            assert forall|i: int| 0 <= i < plan.len() implies self.tasks[(#[trigger] plan[i]).task].on_worker()
                == Some(plan[i].from) by {
                if i < inner.len() {
                    assert(plan[i] == inner[i]);
                } else {
                    let own = self.plan_for(last, self.workers[last].tasks);
                    assert(plan[i] == own[i - inner.len()]);
                    let task = own[i - inner.len()].task;
                    assert(self.workers[last].tasks.contains(task));
                    let k = choose|k: int|
                        0 <= k < self.workers[last].tasks.len() && self.workers[last].tasks[k] == task;
                    assert(self.tasks[self.workers[last].tasks[k]].on_worker() == Some(last));
                }
            }
        }
    }

    /// Rebalancing on a tick: the tick writes one request for each steal
    /// that the policy plans and nothing else. By the work-stealing policy
    /// a worker whose load is more than one above the average is asked to
    /// give up each of its tasks that has a better place.
    pub proof fn lemma_tick_asks(self, worker: WorkerId, id: TaskId)
        requires
            self.inv(),
        ensures
            self.step(EventView::Tick).outbox == self.outbox + Self::steal_requests(self.rebalance()),
            self.kind == SchedulerType::Workstealing && self.workers.contains_key(worker)
                && self.overloaded(worker) && self.workers[worker].tasks.contains(id)
                && self.better_place(worker, id) is Some ==> exists|at: int|
                self.outbox.len() <= at < self.step(EventView::Tick).outbox.len() && #[trigger] self.step(
                    EventView::Tick,
                ).outbox[at] == (OutputView::Steal { worker, task: id }),
    {
        let plan = self.rebalance();
        let after = self.step(EventView::Tick);
        self.lemma_steals_written(plan);
        if self.kind == SchedulerType::Workstealing && self.workers.contains_key(worker)
            && self.overloaded(worker) && self.workers[worker].tasks.contains(id) && self.better_place(
            worker,
            id,
        ) is Some {
            self.lemma_order();
            self.lemma_worker(worker);
            self.lemma_plan_over_complete(self.worker_order);
            self.lemma_plan_from(self.worker_order);
            let i = choose|i: int| 0 <= i < self.worker_order.len() && self.worker_order[i] == worker;
            let j = choose|j: int|
                0 <= j < self.workers[worker].tasks.len() && self.workers[worker].tasks[j] == id;
            assert(self.better_place(self.worker_order[i], self.workers[self.worker_order[i]].tasks[j]) is Some);
            let k = choose|k: int| 0 <= k < plan.len() && (#[trigger] plan[k]).task == id;
            assert(self.tasks[self.workers[worker].tasks[j]].on_worker() == Some(worker));
            assert(plan[k].from == worker);
            let at = self.outbox.len() + k;
            assert(after.outbox[at] == Self::steal_requests(plan)[k]);
        }
    }

    /// The answer to a steal decides where the task is. A task that was
    /// given up goes to the target of the steal, if that worker is still
    /// connected: one output sends it there, the worker that gave it up has
    /// one task less and the target one more. A task that runs, or that
    /// the worker does not find, stays where it is, and nothing is written.
    /// In each case no steal is in flight for the task afterwards.
    pub proof fn lemma_steal_answer(self, worker: WorkerId, id: TaskId, response: StealResponse)
        requires
            self.inv(),
            self.steal_applies(worker, id),
        ensures
            response == StealResponse::Running ==> self.step(
                EventView::TaskStealResponse { worker, id, response },
            ) == self.now_running(id) && self.now_running(id).tasks[id].state == TaskState::Running(
                worker,
            ) && self.now_running(id).outbox == self.outbox,
            response == StealResponse::NotHere ==> self.step(
                EventView::TaskStealResponse { worker, id, response },
            ) == self.end_steal(id) && self.end_steal(id).tasks[id].state == TaskState::Assigned(
                worker,
            ) && self.end_steal(id).outbox == self.outbox,
            response != StealResponse::Success ==> self.step(
                EventView::TaskStealResponse { worker, id, response },
            ).tasks[id].steal_target is None,
            response == StealResponse::Success && self.workers.contains_key(
                self.tasks[id].steal_target.unwrap(),
            ) && self.tasks[id].steal_target.unwrap() != worker ==> {
                let target = self.tasks[id].steal_target.unwrap();
                let after = self.step(EventView::TaskStealResponse { worker, id, response });
                &&& after.tasks[id].state == TaskState::Assigned(target)
                &&& after.tasks[id].steal_target is None
                &&& after.outbox == self.outbox.push(
                    OutputView::Assign {
                        worker: target,
                        task: id,
                        priority: self.tasks[id].priority,
                        deps: self.dependency_info(self.tasks[id].deps),
                    },
                )
                &&& after.workers[worker].load() + 1 == self.workers[worker].load()
                &&& after.workers[target].load() == self.workers[target].load() + 1
            },
    {
        let target = self.tasks[id].steal_target.unwrap();
        if response == StealResponse::Success && self.workers.contains_key(target) && target != worker {
            self.lemma_task(id);
            self.lemma_worker(worker);
            let deps = self.tasks[id].deps;
            let requeued = self.requeue(id);
            assert(self.ready =~= Seq::empty());
            assert(requeued.ready =~= Seq::empty().push(id));
            lemma_without(requeued.ready, id);
            lemma_without(self.workers[worker].tasks, id);
            let sent = requeued.assign_ready(id, target);
            assert(sent.ready =~= Seq::empty());
            assert(self.stolen(id) == sent);
            assert(sent.place_ready() == sent);
            assert forall|i: int| 0 <= i < deps.len() implies requeued.tasks[#[trigger] deps[i]]
                == self.tasks[deps[i]] by {
                assert(deps.contains(deps[i]));
            }
            assert(requeued.dependency_info(deps) =~= self.dependency_info(deps));
        }
    }

    /// A task that can leave the graph is gone once the tasks of `work`
    /// have been looked at, if it is the last of them, and does not come
    /// back when ready tasks are placed.
    pub proof fn lemma_collected(self, work: Seq<TaskId>)
        requires
            self.core_inv(),
            work.len() > 0,
            self.removable(work.last()),
        ensures
            !self.collect(work).tasks.contains_key(work.last()),
            !self.collect(work).place_ready().tasks.contains_key(work.last()),
    {
        let id = work.last();
        assert(self.tasks.dom().finite()) by {
            self.lemma_collect_quiet(Seq::empty());
            reveal(SchedulerView::core_inv);
        }
        self.lemma_remove_node(id);
        let removed = self.remove_node(id);
        let rest = work.drop_last() + self.tasks[id].deps;
        assert(self.collect(work) == removed.collect(rest));
        removed.lemma_collect(rest);
        removed.lemma_collect_quiet(rest);
        removed.collect(rest).lemma_place_ready_quiet();
        assert(!removed.tasks.dom().contains(id));
    }

    /// A task that is on a worker, or that the client has not released,
    /// stays while tasks that can go are looked for: afterwards it is as
    /// before, but that tasks which read it may have gone.
    pub proof fn lemma_collect_keeps(self, work: Seq<TaskId>, id: TaskId)
        requires
            self.core_inv(),
            self.tasks.contains_key(id),
            self.tasks[id].on_worker() is Some || !self.tasks[id].released,
        ensures
            self.collect(work).tasks.contains_key(id),
            self.collect(work).tasks[id] == (TaskView {
                consumers: self.collect(work).tasks[id].consumers,
                ..self.tasks[id]
            }),
            forall|reader: TaskId| #[trigger]
                self.collect(work).tasks[id].consumers.contains(reader)
                    ==> self.tasks[id].consumers.contains(reader),
        decreases self.tasks.dom().len(), work.len(),
    {
        assert(self.tasks.dom().finite()) by {
            reveal(SchedulerView::core_inv);
        }
        if work.len() > 0 {
            let gone = work.last();
            let rest = work.drop_last();
            if self.removable(gone) {
                self.lemma_remove_node(gone);
                let next = self.remove_node(gone);
                lemma_without(self.tasks[id].consumers, gone);
                next.lemma_collect_keeps(rest + self.tasks[gone].deps, id);
                assert forall|reader: TaskId| #[trigger]
                    self.collect(work).tasks[id].consumers.contains(reader) implies self.tasks[id].consumers.contains(
                    reader,
                ) by {
                    assert(next.tasks[id].consumers.contains(reader));
                    if reader == gone {
                        assert(!without(self.tasks[id].consumers, gone).contains(gone));
                    }
                }
            } else if self.releasable(gone) {
                self.lemma_release_memory(gone);
                let next = self.release_memory(gone);
                assert(next.tasks.dom() =~= self.tasks.dom());
                next.lemma_collect_keeps(rest, id);
            } else {
                self.lemma_collect_keeps(rest, id);
            }
        }
    }

    /// A released task that nothing needs leaves at once: when the client
    /// releases a task that no task reads and that is on no worker, the
    /// task is gone from the graph after the release, so it is never sent
    /// to a worker.
    pub proof fn lemma_release_removes(self, id: TaskId)
        requires
            self.inv(),
            self.tasks.contains_key(id),
            self.tasks[id].consumers.len() == 0,
            self.tasks[id].on_worker() is None,
        ensures
            !self.step(EventView::ClientRelease { id }).tasks.contains_key(id),
    {
        self.lemma_client_release(id);
        let marked = self.mark_released(id);
        let work = Seq::<TaskId>::empty().push(id);
        assert(work.last() == id);
        marked.lemma_collected(work);
    }

    /// A released task that runs leaves when it ends: when a worker reports
    /// the end of a task that the client has released and that no task
    /// reads, the task is gone from the graph after the report.
    pub proof fn lemma_finish_removes_released(self, worker: WorkerId, id: TaskId, size: u64)
        requires
            self.inv(),
            self.finish_applies(worker, id),
            self.tasks[id].released,
            self.tasks[id].consumers.len() == 0,
        ensures
            !self.step(EventView::TaskFinished { worker, id, size }).tasks.contains_key(id),
    {
        self.lemma_mark_finished(worker, id, size);
        let marked = self.mark_finished(worker, id, size);
        let work = self.tasks[id].deps.push(id);
        assert(work.last() == id);
        marked.lemma_collected(work);
    }

    /// Immediate placement writes nothing but assignments, each of a task
    /// that was ready, behind what the outbox held.
    pub proof fn lemma_placement_sends_ready(self)
        requires
            self.core_inv(),
        ensures
            self.outbox.is_prefix_of(self.place_ready().outbox),
            forall|at: int|
                self.outbox.len() <= at < self.place_ready().outbox.len() ==> (
                #[trigger] self.place_ready().outbox[at] matches OutputView::Assign { task, .. }
                    && self.ready.contains(task)),
        decreases self.ready.len(),
    {
        if self.worker_order.len() == 0 || self.ready.len() == 0 {
        } else {
            self.lemma_place_first_effect();
            let next = self.place_first();
            let done = self.place_ready();
            assert(done == next.place_ready());
            next.lemma_placement_sends_ready();
            assert forall|at: int| self.outbox.len() <= at < done.outbox.len() implies (
            #[trigger] done.outbox[at] matches OutputView::Assign { task, .. } && self.ready.contains(
                task,
            )) by {
                if at == self.outbox.len() {
                    assert(done.outbox[at] == next.outbox[at]);
                    assert(assigned_at(next.outbox, self.ready[0], at));
                    assert(self.ready.contains(self.ready[0]));
                } else {
                    let task = done.outbox[at]->Assign_task;
                    assert(next.ready.contains(task));
                    let k = choose|k: int| 0 <= k < next.ready.len() && next.ready[k] == task;
                    assert(self.ready[k + 1] == task);
                }
            }
        }
    }

    /// Looking for tasks that can go writes nothing but requests to drop a
    /// result, behind what the outbox held.
    pub proof fn lemma_collect_writes_removals(self, work: Seq<TaskId>)
        requires
            self.core_inv(),
        ensures
            self.outbox.is_prefix_of(self.collect(work).outbox),
            forall|at: int|
                self.outbox.len() <= at < self.collect(work).outbox.len() ==> #[trigger] self.collect(
                    work,
                ).outbox[at] is RemoveTask,
        decreases self.tasks.dom().len(), work.len(),
    {
        assert(self.tasks.dom().finite()) by {
            reveal(SchedulerView::core_inv);
        }
        if work.len() > 0 {
            let id = work.last();
            let rest = work.drop_last();
            let done = self.collect(work);
            let asked = Self::removals(id, self.tasks[id].locations);
            if self.removable(id) || self.releasable(id) {
                let next = if self.removable(id) {
                    self.remove_node(id)
                } else {
                    self.release_memory(id)
                };
                if self.removable(id) {
                    self.lemma_remove_node(id);
                    next.lemma_collect_writes_removals(rest + self.tasks[id].deps);
                } else {
                    self.lemma_release_memory(id);
                    assert(next.tasks.dom() =~= self.tasks.dom());
                    next.lemma_collect_writes_removals(rest);
                }
                assert(next.outbox == self.outbox + asked);
                assert forall|at: int| self.outbox.len() <= at < done.outbox.len() implies #[trigger] done.outbox[at] is RemoveTask by {
                    if at < next.outbox.len() {
                        assert(done.outbox[at] == next.outbox[at]);
                        assert(next.outbox[at] == asked[at - self.outbox.len()]);
                    }
                }
            } else {
                self.lemma_collect_writes_removals(rest);
            }
        }
    }

    /// What follows the first step of an event, dropping what needs no
    /// keeping and placing what is ready, writes behind what the outbox
    /// held and sends no task that is not in the graph by then.
    pub proof fn lemma_cleanup_sends_known(self, work: Seq<TaskId>, id: TaskId)
        requires
            self.core_inv(),
            !self.collect(work).tasks.contains_key(id),
        ensures
            self.outbox.is_prefix_of(self.collect(work).place_ready().outbox),
            forall|at: int|
                self.outbox.len() <= at < self.collect(work).place_ready().outbox.len() ==> !assigned_at(
                    self.collect(work).place_ready().outbox,
                    id,
                    at,
                ),
    {
        let cleared = self.collect(work);
        let after = cleared.place_ready();
        self.lemma_collect(work);
        self.lemma_collect_writes_removals(work);
        cleared.lemma_placement_sends_ready();
        assert forall|at: int| self.outbox.len() <= at < after.outbox.len() implies !assigned_at(
            after.outbox,
            id,
            at,
        ) by {
            if at < cleared.outbox.len() {
                assert(after.outbox[at] == cleared.outbox[at]);
                assert(cleared.outbox[at] is RemoveTask);
            } else {
                let task = after.outbox[at]->Assign_task;
                assert(cleared.ready.contains(task));
                let k = choose|k: int| 0 <= k < cleared.ready.len() && cleared.ready[k] == task;
                cleared.lemma_ready(k);
            }
        }
    }

    /// Release race: a task is on a worker, and its result is read by one
    /// task only, which waits and which nothing reads. The client releases
    /// both while the first is on its worker, and then the worker reports
    /// its end. The waiting task is gone from the graph with its release,
    /// the other one with its end, and the task that waited is never sent
    /// to a worker.
    pub proof fn lemma_release_race(self, producer: TaskId, dependent: TaskId, worker: WorkerId, size: u64)
        requires
            self.inv(),
            self.tasks.contains_key(producer),
            self.tasks.contains_key(dependent),
            self.tasks[producer].on_worker() == Some(worker),
            forall|reader: TaskId| #[trigger]
                self.tasks[producer].consumers.contains(reader) ==> reader == dependent,
            self.tasks[dependent].on_worker() is None,
            self.tasks[dependent].consumers.len() == 0,
        ensures
            ({
                let first = self.step(EventView::ClientRelease { id: producer });
                let second = first.step(EventView::ClientRelease { id: dependent });
                let third = second.step(EventView::TaskFinished { worker, id: producer, size });
                &&& first.tasks.contains_key(producer)
                &&& first.outbox == self.outbox
                &&& !second.tasks.contains_key(dependent)
                &&& second.tasks.contains_key(producer)
                &&& !third.tasks.contains_key(dependent)
                &&& !third.tasks.contains_key(producer)
                &&& self.outbox.is_prefix_of(third.outbox)
                &&& forall|at: int|
                    self.outbox.len() <= at < third.outbox.len() ==> !assigned_at(
                        third.outbox,
                        dependent,
                        at,
                    )
            }),
    {
        let first = self.step(EventView::ClientRelease { id: producer });
        let second = first.step(EventView::ClientRelease { id: dependent });
        let third = second.step(EventView::TaskFinished { worker, id: producer, size });
        self.lemma_task(producer);
        self.lemma_worker(worker);
        assert(self.ready =~= Seq::empty());
        // the first release only marks the task
        self.lemma_client_release(producer);
        let marked = self.mark_released(producer);
        assert(marked.tasks.dom().finite()) by {
            reveal(SchedulerView::core_inv);
        }
        let alone = Seq::<TaskId>::empty().push(producer);
        assert(alone.drop_last() =~= Seq::empty());
        assert(alone.last() == producer);
        assert(marked.collect(alone) == marked.collect(alone.drop_last()));
        assert(marked.collect(alone) == marked);
        assert(first == marked);
        // the second release takes the waiting task away
        first.lemma_release_removes(dependent);
        first.lemma_client_release(dependent);
        let both = first.mark_released(dependent);
        let work = Seq::<TaskId>::empty().push(dependent);
        assert(work.last() == dependent);
        both.lemma_collected(work);
        both.lemma_collect(work);
        both.lemma_collect_keeps(work, producer);
        both.lemma_cleanup_sends_known(work, dependent);
        let cleared = both.collect(work);
        cleared.lemma_task(producer);
        cleared.lemma_placed_stay(producer);
        assert(second == cleared.place_ready());
        assert(second.tasks[producer] == cleared.tasks[producer]);
        second.lemma_task(producer);
        assert(second.tasks[producer].consumers.len() == 0) by {
            let readers = second.tasks[producer].consumers;
            if readers.len() > 0 {
                assert(readers.contains(readers[0]));
                assert(both.tasks[producer].consumers.contains(readers[0]));
                assert(self.tasks[producer].consumers.contains(readers[0]));
                assert(second.tasks.contains_key(readers[0]));
            }
        }
        // the end of the task takes it away too
        second.lemma_finish_removes_released(worker, producer, size);
        second.lemma_mark_finished(worker, producer, size);
        let ended = second.mark_finished(worker, producer, size);
        let rest = second.tasks[producer].deps.push(producer);
        assert(ended.tasks.dom() =~= second.tasks.dom());
        ended.lemma_collect_quiet(rest);
        ended.lemma_finish_quiet(rest);
        ended.lemma_cleanup_sends_known(rest, dependent);
        assert forall|at: int| self.outbox.len() <= at < third.outbox.len() implies !assigned_at(
            third.outbox,
            dependent,
            at,
        ) by {
            if at < second.outbox.len() {
                assert(third.outbox[at] == second.outbox[at]);
                assert(!assigned_at(second.outbox, dependent, at));
            }
        }
    }

    /// The end of a task sends on what waited for it alone: when a worker
    /// reports the end of a task, a task that the client has not released
    /// and that waited for this result only is assigned afterwards, and
    /// an output that sends it to a worker has joined the outbox. If the
    /// client has not released the task that ended, its result is counted
    /// as held by the worker that has done it, and by no other.
    pub proof fn lemma_finish_sends_dependent(
        self,
        worker: WorkerId,
        id: TaskId,
        size: u64,
        dependent: TaskId,
    )
        requires
            self.inv(),
            self.finish_applies(worker, id),
            self.tasks.contains_key(dependent),
            self.tasks[dependent].state == TaskState::Waiting(1),
            self.tasks[dependent].deps.contains(id),
            !self.tasks[dependent].released,
        ensures
            self.step(EventView::TaskFinished { worker, id, size }).tasks.contains_key(dependent),
            self.step(EventView::TaskFinished { worker, id, size }).tasks[dependent].state is Assigned,
            exists|at: int|
                self.outbox.len() <= at && assigned_at(
                    self.step(EventView::TaskFinished { worker, id, size }).outbox,
                    dependent,
                    at,
                ),
            !self.tasks[id].released ==> {
                &&& self.step(EventView::TaskFinished { worker, id, size }).tasks.contains_key(id)
                &&& self.step(EventView::TaskFinished { worker, id, size }).tasks[id].state is Finished
                &&& self.step(EventView::TaskFinished { worker, id, size }).tasks[id].locations
                    == Seq::<WorkerId>::empty().push(worker)
            },
    {
        let after = self.step(EventView::TaskFinished { worker, id, size });
        self.lemma_task(id);
        self.lemma_task(dependent);
        self.lemma_worker(worker);
        let k = choose|k: int|
            0 <= k < self.tasks[dependent].deps.len() && self.tasks[dependent].deps[k] == id;
        assert(self.tasks[self.tasks[dependent].deps[k]].consumers.contains(dependent));
        self.lemma_mark_finished(worker, id, size);
        let ended = self.mark_finished(worker, id, size);
        let work = self.tasks[id].deps.push(id);
        assert(ended.tasks[dependent].state == TaskState::Waiting(0));
        ended.lemma_collect(work);
        ended.lemma_collect_keeps(work, dependent);
        ended.lemma_collect_writes_removals(work);
        let cleared = ended.collect(work);
        cleared.lemma_task(dependent);
        cleared.lemma_placement_announced(dependent);
        let at = choose|at: int| cleared.outbox.len() <= at && assigned_at(after.outbox, dependent, at);
        assert(self.outbox.len() <= at && assigned_at(after.outbox, dependent, at));
        if !self.tasks[id].released {
            ended.lemma_collect_keeps(work, id);
            cleared.lemma_task(id);
            cleared.lemma_placed_stay(id);
        }
    }

    /// Nothing goes where the client has released nothing: looking at
    /// tasks of which none is released leaves the graph as it is.
    pub proof fn lemma_collect_nothing(self, work: Seq<TaskId>)
        requires
            self.tasks.dom().finite(),
            forall|i: int| 0 <= i < work.len() ==> !self.tasks[#[trigger] work[i]].released,
        ensures
            self.collect(work) == self,
        decreases work.len(),
    {
        if work.len() > 0 {
            let rest = work.drop_last();
            assert(!self.tasks[work[work.len() - 1]].released);
            assert forall|i: int| 0 <= i < rest.len() implies !self.tasks[#[trigger] rest[i]].released by {
                assert(rest[i] == work[i]);
            }
            self.lemma_collect_nothing(rest);
        }
    }

    /// With one worker connected every task is placed on it.
    pub proof fn lemma_only_worker_is_picked(self, worker: WorkerId, deps: Seq<TaskId>)
        requires
            self.core_inv(),
            self.worker_order == Seq::<WorkerId>::empty().push(worker),
        ensures
            self.pick_target(deps) == Some(worker),
    {
        self.lemma_pick_target(deps);
        self.lemma_order();
        let picked = self.pick_target(deps).unwrap();
        assert(self.worker_order.contains(picked));
    }

    /// One link of a chain: a task ends whose result one task reads, which
    /// waited for it alone, and the client has released neither it nor
    /// what it reads. The end of the task then writes one output and no
    /// more: it sends the reader to the worker that the policy picks, and
    /// names the worker that has done the task as the only holder of its
    /// result.
    pub proof fn lemma_finish_link(self, worker: WorkerId, id: TaskId, size: u64, dependent: TaskId)
        requires
            self.inv(),
            self.finish_applies(worker, id),
            self.tasks[id].consumers == Seq::<TaskId>::empty().push(dependent),
            self.tasks[dependent].state == TaskState::Waiting(1),
            !self.tasks[id].released,
            forall|i: int|
                0 <= i < self.tasks[id].deps.len() ==> !self.tasks[#[trigger] self.tasks[id].deps[i]].released,
        ensures
            self.step(EventView::TaskFinished { worker, id, size }).outbox == self.outbox.push(
                OutputView::Assign {
                    worker: self.mark_finished(worker, id, size).pick_target(
                        self.tasks[dependent].deps,
                    ).unwrap(),
                    task: dependent,
                    priority: self.tasks[dependent].priority,
                    deps: self.mark_finished(worker, id, size).dependency_info(
                        self.tasks[dependent].deps,
                    ),
                },
            ),
            self.mark_finished(worker, id, size).tasks[id].locations == Seq::<WorkerId>::empty().push(
                worker,
            ),
            self.mark_finished(worker, id, size).size_of(id) == size,
            self.mark_finished(worker, id, size).worker_order == self.worker_order,
    {
        let readers = self.tasks[id].consumers;
        assert(readers[0] == dependent);
        assert(readers.contains(dependent));
        self.lemma_task(id);
        assert(self.tasks.contains_key(readers[0]));
        self.lemma_worker(worker);
        assert(self.ready =~= Seq::empty());
        self.lemma_mark_finished(worker, id, size);
        let ended = self.mark_finished(worker, id, size);
        assert(dependent != id);
        assert(readers.drop_last() =~= Seq::empty());
        assert(readers.last() == dependent);
        assert(self.last_waiters(readers.drop_last()) =~= Seq::empty());
        assert(self.last_waiters(readers) =~= Seq::empty().push(dependent));
        assert(ended.ready =~= Seq::empty().push(dependent));
        let work = self.tasks[id].deps.push(id);
        assert(ended.tasks.dom().finite()) by {
            reveal(SchedulerView::core_inv);
        }
        assert forall|i: int| 0 <= i < work.len() implies !ended.tasks[#[trigger] work[i]].released by {
            if i < self.tasks[id].deps.len() {
                assert(work[i] == self.tasks[id].deps[i]);
                assert(self.tasks.contains_key(self.tasks[id].deps[i]));
            }
        }
        ended.lemma_collect_nothing(work);
        ended.lemma_placement_names_holders();
        let placed = ended.place_first();
        assert(placed.ready =~= Seq::empty());
        assert(ended.place_ready() == placed.place_ready());
        assert(placed.place_ready() == placed);
    }

    /// A result that no worker could deliver is made again: once the
    /// scheduler has learnt that the result of a finished task is
    /// unavailable, the result is counted as held by no worker. Unless the
    /// client has released it the task is not finished any more and has
    /// not failed: it waits, is assigned or runs, and with a worker
    /// connected it does not wait for nothing.
    pub proof fn lemma_unavailable_is_made_again(self, id: TaskId)
        requires
            self.inv(),
            self.tasks.contains_key(id),
            self.tasks[id].state is Finished,
            self.step(EventView::DataUnavailable { id }).tasks.contains_key(id),
        ensures
            self.step(EventView::DataUnavailable { id }).tasks[id].locations.len() == 0,
            !(self.step(EventView::DataUnavailable { id }).tasks[id].state is Finished),
            !self.step(EventView::DataUnavailable { id }).tasks[id].released ==> {
                &&& self.step(EventView::DataUnavailable { id }).tasks[id].unfinished()
                &&& self.step(EventView::DataUnavailable { id }).worker_order.len() > 0 ==> self.step(
                    EventView::DataUnavailable { id },
                ).tasks[id].state != TaskState::Waiting(0)
            },
    {
        let event = EventView::DataUnavailable { id };
        let after = self.step(event);
        let held = self.tasks[id].locations;
        self.lemma_step_keeps_inv(event);
        self.lemma_task(id);
        self.lemma_lose_each(id, held);
        let lost = self.lose_each(id, held);
        lemma_without_all(held, held);
        assert(lost.tasks[id].locations.len() == 0) by {
            if lost.tasks[id].locations.len() > 0 {
                assert(lost.tasks[id].locations.contains(lost.tasks[id].locations[0]));
            }
        }
        lost.lemma_finish_quiet(self.tasks[id].consumers.push(id));
        assert(location_kept(lost, after, id));
        after.lemma_states(id);
        if !after.tasks[id].released {
            self.lemma_lost_result_runs_again(event, id);
        }
    }

    /// A lost result is made again at once where that is possible: a task
    /// that the client has not released stops being finished with an
    /// event, a worker is connected afterwards, and all that the task
    /// reads is finished. Then the task is on a connected worker after the
    /// event.
    pub proof fn lemma_lost_result_is_placed(self, event: EventView, id: TaskId)
        requires
            self.inv(),
            event matches EventView::TaskSubmit { deps, .. } ==> deps.len() <= usize::MAX,
            self.tasks.contains_key(id),
            self.tasks[id].state is Finished,
            self.step(event).tasks.contains_key(id),
            !(self.step(event).tasks[id].state is Finished),
            !self.step(event).tasks[id].released,
            self.step(event).worker_order.len() > 0,
            forall|i: int|
                0 <= i < self.step(event).tasks[id].deps.len() ==> self.step(event).tasks[#[trigger] self.step(
                    event,
                ).tasks[id].deps[i]].state is Finished,
        ensures
            self.step(event).tasks[id].on_worker() is Some,
            self.step(event).workers.contains_key(self.step(event).tasks[id].on_worker().unwrap()),
    {
        let after = self.step(event);
        self.lemma_step_keeps_inv(event);
        self.lemma_lost_result_runs_again(event, id);
        after.lemma_task(id);
        let deps = after.tasks[id].deps;
        lemma_count_bound(deps, |dep: TaskId| after.is_unfinished(dep));
        assert forall|i: int| 0 <= i < deps.len() implies !after.is_unfinished(#[trigger] deps[i]) by {
            assert(after.tasks.contains_key(deps[i]));
        }
    }

    /// No task fails over a lost result or a lost worker: a task that has
    /// failed after an event had failed before, unless the event is the
    /// report of a failure.
    pub proof fn lemma_failure_needs_report(self, event: EventView, id: TaskId)
        requires
            self.inv(),
            event matches EventView::TaskSubmit { deps, .. } ==> deps.len() <= usize::MAX,
            !(event is TaskErred),
            self.step(event).tasks.contains_key(id),
            self.step(event).tasks[id].state is Erred,
        ensures
            self.tasks.contains_key(id),
            self.tasks[id].state is Erred,
    {
        self.lemma_locations_after(event, id);
        assert(failure_kept(self, self.step(event), id));
    }

    /// A lost worker is gone: once the scheduler has learnt of the loss,
    /// the worker is not connected, no task is on it and no result is
    /// counted as held by it.
    pub proof fn lemma_lost_worker_is_gone(self, worker: WorkerId, id: TaskId)
        requires
            self.inv(),
            self.step(EventView::WorkerLost { id: worker }).tasks.contains_key(id),
        ensures
            !self.step(EventView::WorkerLost { id: worker }).workers.contains_key(worker),
            !self.step(EventView::WorkerLost { id: worker }).worker_order.contains(worker),
            self.step(EventView::WorkerLost { id: worker }).tasks[id].on_worker() != Some(worker),
            !self.step(EventView::WorkerLost { id: worker }).tasks[id].locations.contains(worker),
    {
        let event = EventView::WorkerLost { id: worker };
        let after = self.step(event);
        self.lemma_step_keeps_inv(event);
        if self.workers.contains_key(worker) {
            self.lemma_worker_gone(worker);
            let node = self.workers[worker];
            self.lemma_requeue_each(node.tasks);
            let requeued = self.requeue_each(node.tasks);
            assert forall|i: int| 0 <= i < node.data.len() implies requeued.tasks.contains_key(
                #[trigger] node.data[i],
            ) && requeued.tasks[node.data[i]].locations.contains(worker) by {
                assert(self.tasks.contains_key(node.data[i]));
                assert(requeued.settled_like(self, node.data[i]));
            }
            requeued.lemma_lose_data(worker, node.data);
            let gone = requeued.lose_data(worker, node.data).without_worker(worker);
            gone.lemma_collect(node.tasks);
            gone.collect(node.tasks).lemma_place_ready();
            lemma_without(self.worker_order, worker);
            assert(gone.worker_order == without(self.worker_order, worker));
            assert(after == gone.collect(node.tasks).place_ready());
            assert(!after.worker_order.contains(worker));
        } else {
            if self.worker_order.contains(worker) {
                let k = choose|k: int| 0 <= k < self.worker_order.len() && self.worker_order[k] == worker;
                self.lemma_order();
                assert(self.workers.contains_key(self.worker_order[k]));
            }
        }
        if after.workers.contains_key(worker) {
            after.lemma_worker(worker);
        }
        if after.tasks[id].on_worker() == Some(worker) || after.tasks[id].locations.contains(worker) {
            self.lemma_on_connected_workers(event, id, worker);
        }
    }
}

} // verus!
