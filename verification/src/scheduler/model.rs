//! The scheduler as a mathematical state machine.
//!
//! [`SchedulerView`] is what a scheduler stands for: the graph of tasks, the
//! workers, and the outputs decided so far. The functions of this module say
//! what each event does to it, and [`SchedulerView::inv`] says which views
//! are consistent.

use crate::common::{PriorityValue, TaskId, WorkerId};
use crate::idlist::{count_where, without};
use crate::scheduler::kind::SchedulerType;
use crate::scheduler::messages::OutputView;
use crate::scheduler::node::WorkerView;
use crate::scheduler::task::{TaskState, TaskView};
use crate::worker::reactor::DependencyView;
use vstd::prelude::*;

verus! {

/// What a scheduler stands for.
#[verifier::ext_equal]
pub struct SchedulerView {
    pub kind: SchedulerType,
    /// The weight of the load of a worker in the cost of a placement.
    pub alpha: u32,
    /// The weight of the bytes to move in the cost of a placement.
    pub beta: u32,
    /// By how much a steal has to lower the cost.
    pub epsilon: u64,
    /// The state of the generator that the random policy draws from.
    pub random_state: u64,
    /// The priority that the scheduler gives to the next task.
    pub next_priority: PriorityValue,
    pub tasks: Map<TaskId, TaskView>,
    pub workers: Map<WorkerId, WorkerView>,
    /// The workers in the order in which they joined.
    pub worker_order: Seq<WorkerId>,
    /// The tasks that wait for nothing and are not placed yet, oldest first.
    pub ready: Seq<TaskId>,
    /// The outputs decided so far and not yet taken away.
    pub outbox: Seq<OutputView>,
}

/// The next state of the generator of the random policy.
pub open spec fn next_random(state: u64) -> u64 {
    state.wrapping_mul(6364136223846793005).wrapping_add(1442695040888963407)
}

/// The number that the random policy draws in `state`.
pub open spec fn random_draw(state: u64) -> nat {
    (state / 0x2_0000_0000) as nat
}

/// The priority that follows `priority`; the largest one follows itself.
pub open spec fn next_priority_value(priority: PriorityValue) -> PriorityValue {
    if priority < i32::MAX {
        (priority + 1) as PriorityValue
    } else {
        priority
    }
}

/// `total`, or the largest 64-bit number if `total` is larger.
pub open spec fn capped(total: nat) -> nat {
    if total > u64::MAX {
        u64::MAX as nat
    } else {
        total
    }
}

/// The first worker costs less than the second, or as much and has the
/// smaller identifier.
pub open spec fn cheaper(first: WorkerId, first_cost: int, second: WorkerId, second_cost: int) -> bool {
    first_cost < second_cost || (first_cost == second_cost && first <= second)
}

impl SchedulerView {
    /// The task `id` is not finished.
    pub open spec fn is_unfinished(self, id: TaskId) -> bool {
        !(self.tasks.contains_key(id) && self.tasks[id].state is Finished)
    }

    /// How many of `deps` are not finished.
    pub open spec fn unfinished_deps(self, deps: Seq<TaskId>) -> nat {
        count_where(deps, |id: TaskId| self.is_unfinished(id))
    }

    /// The size of the result of the task `id`, as far as it is known.
    pub open spec fn size_of(self, id: TaskId) -> u64 {
        match self.tasks[id].size {
            Some(size) => size,
            None => 0,
        }
    }

    /// The bytes of `deps` that are not on `worker`.
    pub open spec fn remote_bytes(self, worker: WorkerId, deps: Seq<TaskId>) -> nat
        decreases deps.len(),
    {
        if deps.len() == 0 {
            0
        } else {
            self.remote_bytes(worker, deps.drop_last()) + if self.tasks[deps.last()].locations.contains(
                worker,
            ) {
                0nat
            } else {
                self.size_of(deps.last()) as nat
            }
        }
    }

    /// What it costs to run a task that reads `deps` on `worker`: the load of
    /// the worker and the bytes to bring there, each with its weight. The
    /// bytes count up to the largest 64-bit number.
    pub open spec fn cost(self, worker: WorkerId, deps: Seq<TaskId>) -> int {
        self.alpha * self.workers[worker].load() + self.beta * capped(self.remote_bytes(worker, deps))
    }

    /// No worker is a better place than `worker` for a task that reads
    /// `deps`.
    pub open spec fn is_cheapest(self, worker: WorkerId, deps: Seq<TaskId>) -> bool {
        &&& self.workers.contains_key(worker)
        &&& forall|other: WorkerId| #[trigger]
            self.workers.contains_key(other) ==> cheaper(
                worker,
                self.cost(worker, deps),
                other,
                self.cost(other, deps),
            )
    }

    /// The workers among `order` that have a core to spare, in their order.
    pub open spec fn with_capacity(self, order: Seq<WorkerId>) -> Seq<WorkerId>
        decreases order.len(),
    {
        if order.len() == 0 {
            order
        } else if self.workers[order.last()].has_capacity() {
            self.with_capacity(order.drop_last()).push(order.last())
        } else {
            self.with_capacity(order.drop_last())
        }
    }

    /// The workers that the random policy draws from: those with a core to
    /// spare, or all of them if there is none.
    pub open spec fn random_pool(self) -> Seq<WorkerId> {
        if self.with_capacity(self.worker_order).len() > 0 {
            self.with_capacity(self.worker_order)
        } else {
            self.worker_order
        }
    }

    /// The worker on which a task that reads `deps` is placed: none without
    /// workers; by the work-stealing policy the cheapest one; by the random
    /// policy the one drawn from the pool.
    pub open spec fn pick_target(self, deps: Seq<TaskId>) -> Option<WorkerId> {
        if self.worker_order.len() == 0 {
            None
        } else {
            match self.kind {
                SchedulerType::Workstealing => Some(
                    choose|worker: WorkerId| self.is_cheapest(worker, deps),
                ),
                SchedulerType::Random => Some(
                    self.random_pool()[(random_draw(self.random_state) % self.random_pool().len()) as int],
                ),
            }
        }
    }

    /// What a worker is told about the dependencies of an assigned task.
    pub open spec fn dependency_info(self, deps: Seq<TaskId>) -> Seq<DependencyView> {
        Seq::new(
            deps.len(),
            |i: int|
                DependencyView {
                    id: deps[i],
                    size: self.size_of(deps[i]),
                    workers: self.tasks[deps[i]].locations,
                },
        )
    }

    /// The scheduler after the task `id` has been sent to `worker`.
    pub open spec fn assign_to(self, id: TaskId, worker: WorkerId) -> SchedulerView {
        let task = self.tasks[id];
        let node = self.workers[worker];
        SchedulerView {
            tasks: self.tasks.insert(
                id,
                TaskView { state: TaskState::Assigned(worker), steal_target: None, ..task },
            ),
            workers: self.workers.insert(worker, WorkerView { tasks: node.tasks.push(id), ..node }),
            outbox: self.outbox.push(
                OutputView::Assign {
                    worker,
                    task: id,
                    priority: task.priority,
                    deps: self.dependency_info(task.deps),
                },
            ),
            ..self
        }
    }

    /// The scheduler after the random policy has drawn.
    pub open spec fn after_draw(self) -> SchedulerView {
        match self.kind {
            SchedulerType::Workstealing => self,
            SchedulerType::Random => SchedulerView {
                random_state: next_random(self.random_state),
                ..self
            },
        }
    }

    /// The scheduler after the oldest task that waits for nothing has been
    /// placed on the worker that the policy picks.
    pub open spec fn place_first(self) -> SchedulerView {
        let id = self.ready.first();
        match self.pick_target(self.tasks[id].deps) {
            Some(worker) => (SchedulerView {
                ready: self.ready.drop_first(),
                ..self.assign_to(id, worker)
            }).after_draw(),
            None => self,
        }
    }

    /// The scheduler after immediate placement: with a worker at hand every
    /// task that waits for nothing is placed, oldest first.
    pub open spec fn place_ready(self) -> SchedulerView
        decreases self.ready.len(),
    {
        if self.worker_order.len() == 0 || self.ready.len() == 0 {
            self
        } else {
            self.place_first().place_ready()
        }
    }

    /// The task is wired into the graph as its fields say.
    pub open spec fn links_ok(self, id: TaskId) -> bool {
        let task = self.tasks[id];
        &&& task.id == id
        &&& !task.deps.contains(id)
        &&& task.deps.len() <= usize::MAX
        &&& task.deps.no_duplicates()
        &&& forall|i: int|
            0 <= i < task.deps.len() ==> {
                &&& self.tasks.contains_key(#[trigger] task.deps[i])
                &&& self.tasks[task.deps[i]].consumers.contains(id)
            }
        &&& task.consumers.no_duplicates()
        &&& forall|i: int|
            0 <= i < task.consumers.len() ==> {
                &&& self.tasks.contains_key(#[trigger] task.consumers[i])
                &&& self.tasks[task.consumers[i]].deps.contains(id)
            }
    }

    /// The state of the task fits the rest of the graph: a waiting task
    /// waits for exactly its unfinished dependencies, an assigned task has
    /// none, a task on a worker is on the list of that worker, a steal is in
    /// flight only for an assigned task, and only a task that the client has
    /// released is released for good.
    pub open spec fn state_ok(self, id: TaskId) -> bool {
        let task = self.tasks[id];
        &&& task.state matches TaskState::Waiting(n) ==> n == self.unfinished_deps(task.deps)
        &&& task.state is Assigned ==> self.unfinished_deps(task.deps) == 0
        &&& task.on_worker() matches Some(worker) ==> self.workers.contains_key(worker)
            && self.workers[worker].tasks.contains(id)
        &&& task.steal_target is Some ==> task.state is Assigned
        &&& task.state is Released ==> task.released
        &&& task.state == TaskState::Waiting(0) <==> self.ready.contains(id)
    }

    /// The locations of the task fit the workers: exactly a finished task
    /// has locations, its size is known, and each location is a worker that
    /// lists the result.
    pub open spec fn locations_ok(self, id: TaskId) -> bool {
        let task = self.tasks[id];
        &&& task.state is Finished <==> task.locations.len() > 0
        &&& task.state is Finished ==> task.size is Some
        &&& task.locations.no_duplicates()
        &&& forall|i: int|
            0 <= i < task.locations.len() ==> {
                &&& self.workers.contains_key(#[trigger] task.locations[i])
                &&& self.workers[task.locations[i]].data.contains(id)
            }
    }

    /// The task is consistent with the rest of the graph.
    pub open spec fn task_ok(self, id: TaskId) -> bool {
        &&& self.links_ok(id)
        &&& self.state_ok(id)
        &&& self.locations_ok(id)
    }

    /// The lists of the worker fit the tasks: it lists the tasks that are on
    /// it and the results that it holds, each once.
    pub open spec fn worker_ok(self, worker: WorkerId) -> bool {
        let node = self.workers[worker];
        &&& node.id == worker
        &&& self.worker_order.contains(worker)
        &&& node.tasks.no_duplicates()
        &&& forall|i: int|
            0 <= i < node.tasks.len() ==> {
                &&& self.tasks.contains_key(#[trigger] node.tasks[i])
                &&& self.tasks[node.tasks[i]].on_worker() == Some(worker)
            }
        &&& node.data.no_duplicates()
        &&& forall|i: int|
            0 <= i < node.data.len() ==> {
                &&& self.tasks.contains_key(#[trigger] node.data[i])
                &&& self.tasks[node.data[i]].locations.contains(worker)
            }
    }

    /// Consistency of the graph while an event is being handled.
    #[verifier::opaque]
    pub open spec fn core_inv(self) -> bool {
        &&& self.tasks.dom().finite()
        &&& forall|id: TaskId| #[trigger] self.tasks.contains_key(id) ==> self.task_ok(id)
        &&& forall|worker: WorkerId| #[trigger] self.workers.contains_key(worker) ==> self.worker_ok(worker)
        &&& self.worker_order.no_duplicates()
        &&& forall|i: int|
            0 <= i < self.worker_order.len() ==> self.workers.contains_key(#[trigger] self.worker_order[i])
        &&& self.ready.no_duplicates()
        &&& forall|i: int| 0 <= i < self.ready.len() ==> self.tasks.contains_key(#[trigger] self.ready[i])
    }

    /// Consistency of the scheduler between two events: the graph is
    /// consistent, and with a worker at hand no task that waits for nothing
    /// is left unplaced.
    pub open spec fn inv(self) -> bool {
        &&& self.core_inv()
        &&& self.worker_order.len() > 0 ==> self.ready.len() == 0
    }

    /// The unfinished dependencies are counted alike in two graphs in which
    /// the same dependencies are finished.
    pub proof fn lemma_unfinished_same(self, other: SchedulerView, deps: Seq<TaskId>)
        requires
            forall|i: int|
                0 <= i < deps.len() ==> self.is_unfinished(#[trigger] deps[i]) == other.is_unfinished(
                    deps[i],
                ),
        ensures
            self.unfinished_deps(deps) == other.unfinished_deps(deps),
    {
        crate::idlist::lemma_count_same(
            deps,
            |id: TaskId| self.is_unfinished(id),
            |id: TaskId| other.is_unfinished(id),
        );
    }

    /// Among the workers of a list that is not empty one is the cheapest.
    pub proof fn lemma_cheapest_among(self, order: Seq<WorkerId>, deps: Seq<TaskId>)
        requires
            order.len() > 0,
        ensures
            exists|worker: WorkerId|
                order.contains(worker) && forall|other: WorkerId| #[trigger]
                    order.contains(other) ==> cheaper(
                        worker,
                        self.cost(worker, deps),
                        other,
                        self.cost(other, deps),
                    ),
        decreases order.len(),
    {
        let last = order.last();
        assert(order[order.len() - 1] == last);
        if order.len() == 1 {
            assert forall|other: WorkerId| #[trigger] order.contains(other) implies cheaper(
                last,
                self.cost(last, deps),
                other,
                self.cost(other, deps),
            ) by {
                let i = choose|i: int| 0 <= i < order.len() && order[i] == other;
            }
            assert(order.contains(last));
        } else {
            let rest = order.drop_last();
            self.lemma_cheapest_among(rest, deps);
            let best = choose|worker: WorkerId|
                rest.contains(worker) && forall|other: WorkerId| #[trigger]
                    rest.contains(other) ==> cheaper(
                        worker,
                        self.cost(worker, deps),
                        other,
                        self.cost(other, deps),
                    );
            let winner = if cheaper(best, self.cost(best, deps), last, self.cost(last, deps)) {
                best
            } else {
                last
            };
            assert forall|other: WorkerId| #[trigger] order.contains(other) implies cheaper(
                winner,
                self.cost(winner, deps),
                other,
                self.cost(other, deps),
            ) by {
                let i = choose|i: int| 0 <= i < order.len() && order[i] == other;
                if i < rest.len() {
                    assert(rest[i] == other);
                    assert(rest.contains(other));
                }
            }
            let k = choose|k: int| 0 <= k < rest.len() && rest[k] == best;
            assert(order[k] == best);
            assert(order.contains(winner));
        }
    }

    /// Workers of the pool are workers of the list.
    pub proof fn lemma_with_capacity(self, order: Seq<WorkerId>)
        ensures
            forall|worker: WorkerId| #[trigger]
                self.with_capacity(order).contains(worker) ==> order.contains(worker),
        decreases order.len(),
    {
        if order.len() > 0 {
            let rest = order.drop_last();
            self.lemma_with_capacity(rest);
            assert forall|worker: WorkerId| #[trigger]
                self.with_capacity(order).contains(worker) implies order.contains(worker) by {
                let pool = self.with_capacity(order);
                let i = choose|i: int| 0 <= i < pool.len() && pool[i] == worker;
                if worker == order.last() {
                    assert(order[order.len() - 1] == worker);
                } else {
                    let inner = self.with_capacity(rest);
                    if self.workers[order.last()].has_capacity() {
                        assert(inner[i] == worker);
                    }
                    assert(inner.contains(worker));
                    let k = choose|k: int| 0 <= k < rest.len() && rest[k] == worker;
                    assert(order[k] == worker);
                }
            }
        }
    }

    /// With a worker at hand the policy picks one of the workers.
    pub proof fn lemma_pick_target(self, deps: Seq<TaskId>)
        requires
            self.core_inv(),
            self.worker_order.len() > 0,
        ensures
            self.pick_target(deps) matches Some(worker) && self.workers.contains_key(worker),
            self.kind == SchedulerType::Workstealing ==> self.is_cheapest(
                self.pick_target(deps).unwrap(),
                deps,
            ),
    {
        reveal(SchedulerView::core_inv);
        match self.kind {
            SchedulerType::Workstealing => {
                self.lemma_cheapest_among(self.worker_order, deps);
                let best = choose|worker: WorkerId|
                    self.worker_order.contains(worker) && forall|other: WorkerId| #[trigger]
                        self.worker_order.contains(other) ==> cheaper(
                            worker,
                            self.cost(worker, deps),
                            other,
                            self.cost(other, deps),
                        );
                assert(self.is_cheapest(best, deps)) by {
                    let i = choose|i: int|
                        0 <= i < self.worker_order.len() && self.worker_order[i] == best;
                    assert forall|other: WorkerId| #[trigger]
                        self.workers.contains_key(other) implies cheaper(
                        best,
                        self.cost(best, deps),
                        other,
                        self.cost(other, deps),
                    ) by {
                        assert(self.worker_ok(other));
                    }
                }
            },
            SchedulerType::Random => {
                self.lemma_with_capacity(self.worker_order);
                let pool = self.random_pool();
                let index = (random_draw(self.random_state) % pool.len()) as int;
                assert(0 <= index < pool.len()) by (nonlinear_arith)
                    requires
                        pool.len() > 0,
                        index == (random_draw(self.random_state) % pool.len()) as int,
                ;
                assert(pool.contains(pool[index]));
                assert(self.worker_order.contains(pool[index]));
            },
        }
    }

    /// At most one worker is the cheapest.
    pub proof fn lemma_cheapest_unique(self, first: WorkerId, second: WorkerId, deps: Seq<TaskId>)
        requires
            self.is_cheapest(first, deps),
            self.is_cheapest(second, deps),
        ensures
            first == second,
    {
    }

    /// Placing the oldest ready task keeps the graph consistent.
    pub proof fn lemma_place_first(self)
        requires
            self.core_inv(),
            self.worker_order.len() > 0,
            self.ready.len() > 0,
        ensures
            self.place_first().core_inv(),
            self.place_first().ready == self.ready.drop_first(),
            self.place_first().worker_order == self.worker_order,
    {
        reveal(SchedulerView::core_inv);
        let id = self.ready.first();
        assert(self.ready[0] == id);
        assert(self.ready.contains(id));
        assert(self.tasks.contains_key(id));
        assert(self.task_ok(id));
        let task = self.tasks[id];
        self.lemma_pick_target(task.deps);
        let worker = self.pick_target(task.deps).unwrap();
        let after = self.place_first();
        assert(self.worker_ok(worker));
        assert(!self.workers[worker].tasks.contains(id)) by {
            if self.workers[worker].tasks.contains(id) {
                let i = choose|i: int|
                    0 <= i < self.workers[worker].tasks.len() && self.workers[worker].tasks[i] == id;
                assert(self.tasks[self.workers[worker].tasks[i]].on_worker() == Some(worker));
            }
        }
        crate::idlist::lemma_push_new(self.workers[worker].tasks, id);
        assert(after.tasks.dom() =~= self.tasks.dom());
        assert forall|other: TaskId| self.is_unfinished(other) == after.is_unfinished(other) by {}
        assert forall|other: TaskId| #[trigger] after.ready.contains(other) == (self.ready.contains(other)
            && other != id) by {
            if after.ready.contains(other) {
                let i = choose|i: int| 0 <= i < after.ready.len() && after.ready[i] == other;
                assert(self.ready[i + 1] == other);
            }
            if self.ready.contains(other) && other != id {
                let i = choose|i: int| 0 <= i < self.ready.len() && self.ready[i] == other;
                assert(after.ready[i - 1] == other);
            }
        }
        assert forall|other: TaskId| #[trigger] after.tasks.contains_key(other) implies after.task_ok(
            other,
        ) by {
            assert(self.tasks.contains_key(other));
            assert(self.task_ok(other));
            self.lemma_unfinished_same(after, self.tasks[other].deps);
            assert(after.links_ok(other));
            assert(after.locations_ok(other)) by {
                let t = after.tasks[other];
                assert forall|i: int| 0 <= i < t.locations.len() implies {
                    &&& after.workers.contains_key(#[trigger] t.locations[i])
                    &&& after.workers[t.locations[i]].data.contains(other)
                } by {
                    assert(self.workers.contains_key(self.tasks[other].locations[i]));
                }
            }
            assert(after.state_ok(other));
        }
        assert forall|node: WorkerId| #[trigger] after.workers.contains_key(node) implies after.worker_ok(
            node,
        ) by {
            assert(self.workers.contains_key(node));
            assert(self.worker_ok(node));
            let n = after.workers[node];
            assert forall|i: int| 0 <= i < n.tasks.len() implies {
                &&& after.tasks.contains_key(#[trigger] n.tasks[i])
                &&& after.tasks[n.tasks[i]].on_worker() == Some(node)
            } by {
                if node == worker && i == self.workers[worker].tasks.len() {
                } else {
                    assert(n.tasks[i] == self.workers[node].tasks[i]);
                    assert(self.tasks[self.workers[node].tasks[i]].on_worker() == Some(node));
                }
            }
            assert forall|i: int| 0 <= i < n.data.len() implies {
                &&& after.tasks.contains_key(#[trigger] n.data[i])
                &&& after.tasks[n.data[i]].locations.contains(node)
            } by {
                assert(self.tasks.contains_key(self.workers[node].data[i]));
            }
        }
        assert forall|i: int| 0 <= i < after.ready.len() implies after.tasks.contains_key(
            #[trigger] after.ready[i],
        ) by {
            assert(after.ready[i] == self.ready[i + 1]);
        }
        assert(after.ready.no_duplicates()) by {
            assert forall|i: int, j: int|
                0 <= i < after.ready.len() && 0 <= j < after.ready.len() && i != j implies after.ready[i]
                != after.ready[j] by {
                assert(after.ready[i] == self.ready[i + 1]);
                assert(after.ready[j] == self.ready[j + 1]);
            }
        }
    }

    /// Immediate placement turns a consistent graph into a consistent
    /// scheduler.
    pub proof fn lemma_place_ready(self)
        requires
            self.core_inv(),
        ensures
            self.place_ready().inv(),
            self.place_ready().worker_order == self.worker_order,
        decreases self.ready.len(),
    {
        reveal(SchedulerView::core_inv);
        if self.worker_order.len() == 0 || self.ready.len() == 0 {
        } else {
            self.lemma_place_first();
            self.place_first().lemma_place_ready();
        }
    }

    /// The scheduler after the worker `id` has joined. A worker that is
    /// known already changes nothing. The new worker has no tasks and holds
    /// no results; tasks that wait for nothing are placed.
    pub open spec fn worker_added(self, id: WorkerId, address: Seq<char>, ncpus: u32) -> SchedulerView {
        if self.workers.contains_key(id) {
            self
        } else {
            self.joined(id, address, ncpus).place_ready()
        }
    }

    /// The graph after the worker `id` has joined.
    pub open spec fn joined(self, id: WorkerId, address: Seq<char>, ncpus: u32) -> SchedulerView {
        SchedulerView {
            workers: self.workers.insert(
                id,
                WorkerView { id, listen_address: address, ncpus, tasks: Seq::empty(), data: Seq::empty() },
            ),
            worker_order: self.worker_order.push(id),
            ..self
        }
    }

    /// A new worker keeps the scheduler consistent.
    pub proof fn lemma_worker_added(self, id: WorkerId, address: Seq<char>, ncpus: u32)
        requires
            self.inv(),
        ensures
            self.worker_added(id, address, ncpus).inv(),
    {
        reveal(SchedulerView::core_inv);
        if !self.workers.contains_key(id) {
            self.lemma_joined(id, address, ncpus);
            self.joined(id, address, ncpus).lemma_place_ready();
        }
    }

    /// A new worker keeps the graph consistent.
    pub proof fn lemma_joined(self, id: WorkerId, address: Seq<char>, ncpus: u32)
        requires
            self.core_inv(),
            !self.workers.contains_key(id),
        ensures
            self.joined(id, address, ncpus).core_inv(),
    {
        reveal(SchedulerView::core_inv);
        {
            let joined = SchedulerView {
                workers: self.workers.insert(
                    id,
                    WorkerView {
                        id,
                        listen_address: address,
                        ncpus,
                        tasks: Seq::empty(),
                        data: Seq::empty(),
                    },
                ),
                worker_order: self.worker_order.push(id),
                ..self
            };
            assert(!self.worker_order.contains(id)) by {
                if self.worker_order.contains(id) {
                    let i = choose|i: int| 0 <= i < self.worker_order.len() && self.worker_order[i] == id;
                    assert(self.workers.contains_key(self.worker_order[i]));
                }
            }
            crate::idlist::lemma_push_new(self.worker_order, id);
            assert forall|other: TaskId| self.is_unfinished(other) == joined.is_unfinished(other) by {}
            assert forall|task: TaskId| #[trigger] joined.tasks.contains_key(task) implies joined.task_ok(
                task,
            ) by {
                assert(self.task_ok(task));
                self.lemma_unfinished_same(joined, self.tasks[task].deps);
                let t = joined.tasks[task];
                assert forall|i: int| 0 <= i < t.locations.len() implies {
                    &&& joined.workers.contains_key(#[trigger] t.locations[i])
                    &&& joined.workers[t.locations[i]].data.contains(task)
                } by {
                    assert(self.workers.contains_key(t.locations[i]));
                }
            }
            assert forall|node: WorkerId| #[trigger] joined.workers.contains_key(node) implies joined.worker_ok(
                node,
            ) by {
                if node != id {
                    assert(self.worker_ok(node));
                }
            }
            assert forall|i: int| 0 <= i < joined.worker_order.len() implies joined.workers.contains_key(
                #[trigger] joined.worker_order[i],
            ) by {
                if i < self.worker_order.len() {
                    assert(self.workers.contains_key(self.worker_order[i]));
                }
            }
        }
    }

    /// The submission of the task `id` with `deps` can be taken in: the task
    /// is new, and its dependencies are known tasks, each named once.
    pub open spec fn submit_applies(self, id: TaskId, deps: Seq<TaskId>) -> bool {
        &&& !self.tasks.contains_key(id)
        &&& deps.no_duplicates()
        &&& forall|i: int| 0 <= i < deps.len() ==> self.tasks.contains_key(#[trigger] deps[i])
    }

    /// The tasks after each of `deps` has got `consumer` as a consumer.
    pub open spec fn with_consumer(self, deps: Seq<TaskId>, consumer: TaskId) -> Map<TaskId, TaskView> {
        Map::new(
            |id: TaskId| self.tasks.contains_key(id),
            |id: TaskId|
                if deps.contains(id) {
                    TaskView { consumers: self.tasks[id].consumers.push(consumer), ..self.tasks[id] }
                } else {
                    self.tasks[id]
                },
        )
    }

    /// The task that a submission makes.
    pub open spec fn submitted_task(
        self,
        id: TaskId,
        deps: Seq<TaskId>,
        priority: PriorityValue,
        size: Option<u64>,
    ) -> TaskView {
        TaskView {
            id,
            state: TaskState::Waiting(self.unfinished_deps(deps) as usize),
            priority: (priority, self.next_priority),
            deps,
            consumers: Seq::empty(),
            size,
            locations: Seq::empty(),
            released: false,
            steal_target: None,
        }
    }

    /// The graph after the task `id` has been entered.
    pub open spec fn enter_task(
        self,
        id: TaskId,
        deps: Seq<TaskId>,
        priority: PriorityValue,
        size: Option<u64>,
    ) -> SchedulerView {
        SchedulerView {
            tasks: self.with_consumer(deps, id).insert(
                id,
                self.submitted_task(id, deps, priority, size),
            ),
            next_priority: next_priority_value(self.next_priority),
            ready: if self.unfinished_deps(deps) == 0 {
                self.ready.push(id)
            } else {
                self.ready
            },
            ..self
        }
    }

    /// The scheduler after the client has submitted the task `id`. A
    /// submission that cannot be taken in changes nothing. Otherwise the
    /// task waits for its unfinished dependencies, which get it as a
    /// consumer; a task that waits for nothing is placed.
    pub open spec fn task_submit(
        self,
        id: TaskId,
        deps: Seq<TaskId>,
        priority: PriorityValue,
        size: Option<u64>,
    ) -> SchedulerView {
        if self.submit_applies(id, deps) {
            self.enter_task(id, deps, priority, size).place_ready()
        } else {
            self
        }
    }

    /// No task that the graph knows is read by a task that it does not know.
    pub proof fn lemma_unknown_reads_nothing(self, id: TaskId, dep: TaskId)
        requires
            self.core_inv(),
            !self.tasks.contains_key(id),
            self.tasks.contains_key(dep),
        ensures
            !self.tasks[dep].consumers.contains(id),
            !self.tasks[dep].deps.contains(id),
            !self.ready.contains(id),
    {
        reveal(SchedulerView::core_inv);
        assert(self.task_ok(dep));
        if self.tasks[dep].consumers.contains(id) {
            let i = choose|i: int|
                0 <= i < self.tasks[dep].consumers.len() && self.tasks[dep].consumers[i] == id;
            assert(self.tasks.contains_key(self.tasks[dep].consumers[i]));
        }
        if self.tasks[dep].deps.contains(id) {
            let i = choose|i: int| 0 <= i < self.tasks[dep].deps.len() && self.tasks[dep].deps[i] == id;
            assert(self.tasks.contains_key(self.tasks[dep].deps[i]));
        }
        if self.ready.contains(id) {
            let i = choose|i: int| 0 <= i < self.ready.len() && self.ready[i] == id;
            assert(self.tasks.contains_key(self.ready[i]));
        }
    }

    /// Entering a task keeps the graph consistent.
    pub proof fn lemma_enter_task(
        self,
        id: TaskId,
        deps: Seq<TaskId>,
        priority: PriorityValue,
        size: Option<u64>,
    )
        requires
            self.core_inv(),
            self.submit_applies(id, deps),
            deps.len() <= usize::MAX,
        ensures
            self.enter_task(id, deps, priority, size).core_inv(),
            self.task_submit(id, deps, priority, size).inv(),
    {
        reveal(SchedulerView::core_inv);
        let after = self.enter_task(id, deps, priority, size);
        let task = self.submitted_task(id, deps, priority, size);
        crate::idlist::lemma_count_bound(deps, |d: TaskId| self.is_unfinished(d));
        assert(after.tasks.dom() =~= self.tasks.dom().insert(id));
        assert forall|other: TaskId| other != id implies self.is_unfinished(other) == after.is_unfinished(
            other,
        ) by {}
        assert forall|i: int| 0 <= i < deps.len() implies #[trigger] deps[i] != id by {}
        if self.ready.contains(id) {
            let i = choose|i: int| 0 <= i < self.ready.len() && self.ready[i] == id;
            assert(self.tasks.contains_key(self.ready[i]));
        }
        if self.unfinished_deps(deps) == 0 {
            crate::idlist::lemma_push_new(self.ready, id);
        }
        assert forall|other: TaskId| #[trigger] after.tasks.contains_key(other) implies after.task_ok(
            other,
        ) by {
            let t = after.tasks[other];
            if other == id {
                self.lemma_unfinished_same(after, deps);
                assert forall|i: int| 0 <= i < t.deps.len() implies {
                    &&& after.tasks.contains_key(#[trigger] t.deps[i])
                    &&& after.tasks[t.deps[i]].consumers.contains(id)
                } by {
                    assert(deps.contains(deps[i]));
                    let cs = self.tasks[deps[i]].consumers;
                    assert(cs.push(id)[cs.len() as int] == id);
                }
                assert(after.links_ok(other));
                assert(after.state_ok(other));
                assert(after.locations_ok(other));
            } else {
                assert(self.task_ok(other));
                let before = self.tasks[other];
                self.lemma_unknown_reads_nothing(id, other);
                assert forall|i: int| 0 <= i < before.deps.len() implies self.is_unfinished(
                    #[trigger] before.deps[i],
                ) == after.is_unfinished(before.deps[i]) by {
                    assert(self.tasks.contains_key(before.deps[i]));
                }
                self.lemma_unfinished_same(after, before.deps);
                assert(t.deps == before.deps);
                assert forall|i: int| 0 <= i < t.deps.len() implies {
                    &&& after.tasks.contains_key(#[trigger] t.deps[i])
                    &&& after.tasks[t.deps[i]].consumers.contains(other)
                } by {
                    let d = before.deps[i];
                    assert(self.tasks[d].consumers.contains(other));
                    let cs = self.tasks[d].consumers;
                    let k = choose|k: int| 0 <= k < cs.len() && cs[k] == other;
                    assert(cs.push(id)[k] == other);
                }
                if deps.contains(other) {
                    crate::idlist::lemma_push_new(before.consumers, id);
                    assert forall|i: int| 0 <= i < t.consumers.len() implies {
                        &&& after.tasks.contains_key(#[trigger] t.consumers[i])
                        &&& after.tasks[t.consumers[i]].deps.contains(other)
                    } by {
                        if i < before.consumers.len() {
                            assert(t.consumers[i] == before.consumers[i]);
                            assert(self.tasks.contains_key(before.consumers[i]));
                            self.lemma_unknown_reads_nothing(id, before.consumers[i]);
                        }
                    }
                } else {
                    assert forall|i: int| 0 <= i < t.consumers.len() implies {
                        &&& after.tasks.contains_key(#[trigger] t.consumers[i])
                        &&& after.tasks[t.consumers[i]].deps.contains(other)
                    } by {
                        assert(self.tasks.contains_key(before.consumers[i]));
                    }
                }
                assert(after.links_ok(other));
                assert(after.state_ok(other));
                assert(after.locations_ok(other));
            }
        }
        assert forall|node: WorkerId| #[trigger] after.workers.contains_key(node) implies after.worker_ok(
            node,
        ) by {
            assert(self.worker_ok(node));
            let n = after.workers[node];
            assert forall|i: int| 0 <= i < n.tasks.len() implies {
                &&& after.tasks.contains_key(#[trigger] n.tasks[i])
                &&& after.tasks[n.tasks[i]].on_worker() == Some(node)
            } by {
                assert(self.tasks.contains_key(n.tasks[i]));
            }
            assert forall|i: int| 0 <= i < n.data.len() implies {
                &&& after.tasks.contains_key(#[trigger] n.data[i])
                &&& after.tasks[n.data[i]].locations.contains(node)
            } by {
                assert(self.tasks.contains_key(n.data[i]));
            }
        }
        assert forall|i: int| 0 <= i < after.ready.len() implies after.tasks.contains_key(
            #[trigger] after.ready[i],
        ) by {
            if i < self.ready.len() {
                assert(self.tasks.contains_key(self.ready[i]));
            }
        }
        after.lemma_place_ready();
    }

    /// The workers of the order are known, and each known worker is in the
    /// order.
    pub proof fn lemma_order(self)
        requires
            self.core_inv(),
        ensures
            self.worker_order.no_duplicates(),
            forall|i: int|
                0 <= i < self.worker_order.len() ==> self.workers.contains_key(
                    #[trigger] self.worker_order[i],
                ),
            forall|worker: WorkerId| #[trigger]
                self.workers.contains_key(worker) ==> self.worker_order.contains(worker),
    {
        reveal(SchedulerView::core_inv);
        assert forall|worker: WorkerId| #[trigger]
            self.workers.contains_key(worker) implies self.worker_order.contains(worker) by {
            assert(self.worker_ok(worker));
        }
    }

    /// A known task is consistent with the graph.
    pub proof fn lemma_task(self, id: TaskId)
        requires
            self.core_inv(),
            self.tasks.contains_key(id),
        ensures
            self.task_ok(id),
    {
        reveal(SchedulerView::core_inv);
    }

    /// A known worker is consistent with the graph.
    pub proof fn lemma_worker(self, worker: WorkerId)
        requires
            self.core_inv(),
            self.workers.contains_key(worker),
        ensures
            self.worker_ok(worker),
    {
        reveal(SchedulerView::core_inv);
    }

    /// The tasks of the ready list are known and wait for nothing.
    pub proof fn lemma_ready(self, i: int)
        requires
            self.core_inv(),
            0 <= i < self.ready.len(),
        ensures
            self.tasks.contains_key(self.ready[i]),
            self.tasks[self.ready[i]].state == TaskState::Waiting(0),
            self.task_ok(self.ready[i]),
    {
        reveal(SchedulerView::core_inv);
        assert(self.ready.contains(self.ready[i]));
        assert(self.task_ok(self.ready[i]));
    }

    /// A scheduler without tasks and workers is consistent.
    pub proof fn lemma_empty(self)
        requires
            self.tasks == Map::<TaskId, TaskView>::empty(),
            self.workers == Map::<WorkerId, WorkerView>::empty(),
            self.worker_order.len() == 0,
            self.ready.len() == 0,
        ensures
            self.inv(),
    {
        reveal(SchedulerView::core_inv);
    }

    /// The report that `worker` has done the task `id` can be taken in: the
    /// task is on that worker.
    pub open spec fn finish_applies(self, worker: WorkerId, id: TaskId) -> bool {
        self.tasks.contains_key(id) && self.tasks[id].on_worker() == Some(worker)
    }

    /// The tasks after each waiting task of `consumers` has learnt that one
    /// more of its dependencies is finished.
    pub open spec fn notified(self, consumers: Seq<TaskId>) -> Map<TaskId, TaskView> {
        Map::new(
            |id: TaskId| self.tasks.contains_key(id),
            |id: TaskId|
                if consumers.contains(id) {
                    match self.tasks[id].state {
                        TaskState::Waiting(n) => TaskView {
                            state: TaskState::Waiting((n - 1) as usize),
                            ..self.tasks[id]
                        },
                        _ => self.tasks[id],
                    }
                } else {
                    self.tasks[id]
                },
        )
    }

    /// The tasks of `list` that wait for one dependency only, in their
    /// order.
    pub open spec fn last_waiters(self, list: Seq<TaskId>) -> Seq<TaskId>
        decreases list.len(),
    {
        if list.len() == 0 {
            list
        } else if self.tasks[list.last()].state == TaskState::Waiting(1) {
            self.last_waiters(list.drop_last()).push(list.last())
        } else {
            self.last_waiters(list.drop_last())
        }
    }

    /// The graph after `worker` has done the task `id` with a result of
    /// `size` bytes: the task is finished and its result is on the worker;
    /// its waiting consumers wait for one dependency less, and those that
    /// wait for nothing any more are ready.
    pub open spec fn mark_finished(self, worker: WorkerId, id: TaskId, size: u64) -> SchedulerView {
        let task = self.tasks[id];
        let node = self.workers[worker];
        SchedulerView {
            tasks: self.notified(task.consumers).insert(
                id,
                TaskView {
                    state: TaskState::Finished,
                    locations: Seq::empty().push(worker),
                    size: Some(size),
                    steal_target: None,
                    ..task
                },
            ),
            workers: self.workers.insert(
                worker,
                WorkerView { tasks: without(node.tasks, id), data: node.data.push(id), ..node },
            ),
            ready: self.ready + self.last_waiters(task.consumers),
            ..self
        }
    }

    /// The members of the last waiters are the members of the list that
    /// wait for one dependency, and none of them stands twice if none does
    /// in the list.
    pub proof fn lemma_last_waiters(self, list: Seq<TaskId>)
        ensures
            forall|id: TaskId| #[trigger]
                self.last_waiters(list).contains(id) <==> list.contains(id) && self.tasks[id].state
                    == TaskState::Waiting(1),
            list.no_duplicates() ==> self.last_waiters(list).no_duplicates(),
        decreases list.len(),
    {
        if list.len() > 0 {
            let rest = list.drop_last();
            let last = list.last();
            self.lemma_last_waiters(rest);
            let inner = self.last_waiters(rest);
            let result = self.last_waiters(list);
            assert(list =~= rest.push(last));
            assert forall|id: TaskId| list.contains(id) == (rest.contains(id) || id == last) by {
                if list.contains(id) {
                    let i = choose|i: int| 0 <= i < list.len() && list[i] == id;
                    if i < rest.len() {
                        assert(rest[i] == id);
                    }
                }
                if rest.contains(id) {
                    let i = choose|i: int| 0 <= i < rest.len() && rest[i] == id;
                    assert(list[i] == id);
                }
                if id == last {
                    assert(list[list.len() - 1] == id);
                }
            }
            if self.tasks[last].state == TaskState::Waiting(1) {
                assert forall|id: TaskId| result.contains(id) == (inner.contains(id) || id == last) by {
                    if result.contains(id) {
                        let i = choose|i: int| 0 <= i < result.len() && result[i] == id;
                        if i < inner.len() {
                            assert(inner[i] == id);
                        }
                    }
                    if inner.contains(id) {
                        let i = choose|i: int| 0 <= i < inner.len() && inner[i] == id;
                        assert(result[i] == id);
                    }
                    if id == last {
                        assert(result[inner.len() as int] == id);
                    }
                }
                if list.no_duplicates() {
                    assert(rest.no_duplicates());
                    assert(!rest.contains(last)) by {
                        if rest.contains(last) {
                            let i = choose|i: int| 0 <= i < rest.len() && rest[i] == last;
                            assert(list[i] == list[list.len() - 1]);
                        }
                    }
                    crate::idlist::lemma_push_new(inner, last);
                }
            } else {
                if list.no_duplicates() {
                    assert(rest.no_duplicates());
                }
            }
        }
    }

    /// Two lists without duplicates that share no member make a list
    /// without duplicates.
    pub proof fn lemma_join(first: Seq<TaskId>, second: Seq<TaskId>)
        requires
            first.no_duplicates(),
            second.no_duplicates(),
            forall|id: TaskId| first.contains(id) ==> !second.contains(id),
        ensures
            (first + second).no_duplicates(),
            forall|id: TaskId| #[trigger]
                (first + second).contains(id) <==> first.contains(id) || second.contains(id),
    {
        let joined = first + second;
        assert forall|id: TaskId| #[trigger] joined.contains(id) <==> first.contains(id) || second.contains(
            id,
        ) by {
            if joined.contains(id) {
                let i = choose|i: int| 0 <= i < joined.len() && joined[i] == id;
                if i < first.len() {
                    assert(first[i] == id);
                } else {
                    assert(second[i - first.len()] == id);
                }
            }
            if first.contains(id) {
                let i = choose|i: int| 0 <= i < first.len() && first[i] == id;
                assert(joined[i] == id);
            }
            if second.contains(id) {
                let i = choose|i: int| 0 <= i < second.len() && second[i] == id;
                assert(joined[first.len() + i] == id);
            }
        }
        assert forall|i: int, j: int|
            0 <= i < joined.len() && 0 <= j < joined.len() && i != j implies joined[i] != joined[j] by {
            if i < first.len() {
                assert(first.contains(joined[i]));
            } else {
                assert(second[i - first.len()] == joined[i]);
                assert(second.contains(joined[i]));
            }
            if j < first.len() {
                assert(first.contains(joined[j]));
            } else {
                assert(second[j - first.len()] == joined[j]);
                assert(second.contains(joined[j]));
            }
        }
    }

    /// A finished task keeps the graph consistent.
    pub proof fn lemma_mark_finished(self, worker: WorkerId, id: TaskId, size: u64)
        requires
            self.core_inv(),
            self.finish_applies(worker, id),
        ensures
            self.mark_finished(worker, id, size).core_inv(),
            self.mark_finished(worker, id, size).worker_order == self.worker_order,
    {
        reveal(SchedulerView::core_inv);
        let after = self.mark_finished(worker, id, size);
        let task = self.tasks[id];
        let node = self.workers[worker];
        assert(self.task_ok(id));
        assert(self.worker_ok(worker));
        crate::idlist::lemma_without(node.tasks, id);
        self.lemma_last_waiters(task.consumers);
        assert(after.tasks.dom() =~= self.tasks.dom());
        // the result is new on the worker
        assert(!node.data.contains(id)) by {
            if node.data.contains(id) {
                let i = choose|i: int| 0 <= i < node.data.len() && node.data[i] == id;
                assert(self.tasks[node.data[i]].locations.contains(worker));
            }
        }
        crate::idlist::lemma_push_new(node.data, id);
        // what was ready stays ready, and the last waiters join
        assert forall|other: TaskId| self.ready.contains(other) implies !self.last_waiters(
            task.consumers,
        ).contains(other) by {
            let i = choose|i: int| 0 <= i < self.ready.len() && self.ready[i] == other;
            assert(self.tasks.contains_key(self.ready[i]));
            assert(self.task_ok(other));
        }
        Self::lemma_join(self.ready, self.last_waiters(task.consumers));
        assert forall|other: TaskId| other != id implies (self.is_unfinished(other) == after.is_unfinished(
            other,
        )) by {}
        assert forall|other: TaskId| #[trigger] after.tasks.contains_key(other) implies after.task_ok(
            other,
        ) by {
            assert(self.task_ok(other));
            let before = self.tasks[other];
            let t = after.tasks[other];
            assert(t.deps == before.deps);
            assert(t.consumers == before.consumers);
            assert(after.links_ok(other)) by {
                assert forall|i: int| 0 <= i < t.deps.len() implies {
                    &&& after.tasks.contains_key(#[trigger] t.deps[i])
                    &&& after.tasks[t.deps[i]].consumers.contains(other)
                } by {
                    assert(self.tasks.contains_key(before.deps[i]));
                }
                assert forall|i: int| 0 <= i < t.consumers.len() implies {
                    &&& after.tasks.contains_key(#[trigger] t.consumers[i])
                    &&& after.tasks[t.consumers[i]].deps.contains(other)
                } by {
                    assert(self.tasks.contains_key(before.consumers[i]));
                }
            }
            assert(after.locations_ok(other)) by {
                if other == id {
                    assert(t.locations[0] == worker);
                    assert(node.data.push(id)[node.data.len() as int] == id);
                } else {
                    assert forall|i: int| 0 <= i < t.locations.len() implies {
                        &&& after.workers.contains_key(#[trigger] t.locations[i])
                        &&& after.workers[t.locations[i]].data.contains(other)
                    } by {
                        assert(self.workers.contains_key(before.locations[i]));
                        assert(self.workers[before.locations[i]].data.contains(other));
                    }
                }
            }
            assert(after.state_ok(other)) by {
                if other != id {
                    if before.deps.contains(id) {
                        // a consumer of the finished task
                        assert(task.consumers.contains(other)) by {
                            let k = choose|k: int| 0 <= k < before.deps.len() && before.deps[k] == id;
                            assert(self.tasks[before.deps[k]].consumers.contains(other));
                        }
                        crate::idlist::lemma_count_drop(
                            before.deps,
                            id,
                            |d: TaskId| self.is_unfinished(d),
                            |d: TaskId| after.is_unfinished(d),
                        );
                    } else {
                        assert(!task.consumers.contains(other)) by {
                            if task.consumers.contains(other) {
                                let k = choose|k: int|
                                    0 <= k < task.consumers.len() && task.consumers[k] == other;
                                assert(self.tasks[task.consumers[k]].deps.contains(id));
                            }
                        }
                        assert forall|i: int| 0 <= i < before.deps.len() implies self.is_unfinished(
                            #[trigger] before.deps[i],
                        ) == after.is_unfinished(before.deps[i]) by {
                            assert(before.deps.contains(before.deps[i]));
                        }
                        self.lemma_unfinished_same(after, before.deps);
                    }
                    if t.on_worker() is Some {
                        let w = t.on_worker().unwrap();
                        assert(self.workers[w].tasks.contains(other));
                    }
                }
            }
        }
        assert forall|n: WorkerId| #[trigger] after.workers.contains_key(n) implies after.worker_ok(n) by {
            assert(self.worker_ok(n));
            let w = after.workers[n];
            assert forall|i: int| 0 <= i < w.tasks.len() implies {
                &&& after.tasks.contains_key(#[trigger] w.tasks[i])
                &&& after.tasks[w.tasks[i]].on_worker() == Some(n)
            } by {
                let x = w.tasks[i];
                assert(w.tasks.contains(x));
                assert(self.workers[n].tasks.contains(x));
                let k = choose|k: int| 0 <= k < self.workers[n].tasks.len() && self.workers[n].tasks[k] == x;
                assert(self.tasks.contains_key(self.workers[n].tasks[k]));
                assert(x != id) by {
                    if n != worker {
                        assert(self.tasks[x].on_worker() == Some(n));
                    }
                }
            }
            assert forall|i: int| 0 <= i < w.data.len() implies {
                &&& after.tasks.contains_key(#[trigger] w.data[i])
                &&& after.tasks[w.data[i]].locations.contains(n)
            } by {
                if n == worker && i == node.data.len() {
                    assert(after.tasks[id].locations[0] == worker);
                } else {
                    let x = self.workers[n].data[i];
                    assert(self.tasks.contains_key(x));
                    assert(self.tasks[x].locations.contains(n));
                    assert(x != id) by {
                        assert(self.tasks[x].locations.len() > 0);
                    }
                }
            }
        }
        assert forall|i: int| 0 <= i < after.ready.len() implies after.tasks.contains_key(
            #[trigger] after.ready[i],
        ) by {
            assert(after.ready.contains(after.ready[i]));
            if self.ready.contains(after.ready[i]) {
                let k = choose|k: int| 0 <= k < self.ready.len() && self.ready[k] == after.ready[i];
                assert(self.tasks.contains_key(self.ready[k]));
            } else {
                let c = after.ready[i];
                let k = choose|k: int| 0 <= k < task.consumers.len() && task.consumers[k] == c;
                assert(self.tasks.contains_key(task.consumers[k]));
            }
        }
    }

    /// The consumers of a task that is on a worker are known and none of
    /// them waits for nothing.
    pub proof fn lemma_consumers_wait(self, id: TaskId)
        requires
            self.core_inv(),
            self.tasks.contains_key(id),
            !(self.tasks[id].state is Finished),
        ensures
            self.tasks[id].consumers.no_duplicates(),
            forall|i: int|
                0 <= i < self.tasks[id].consumers.len() ==> {
                    &&& self.tasks.contains_key(#[trigger] self.tasks[id].consumers[i])
                    &&& self.tasks[self.tasks[id].consumers[i]].state != TaskState::Waiting(0)
                },
    {
        reveal(SchedulerView::core_inv);
        assert(self.task_ok(id));
        let consumers = self.tasks[id].consumers;
        assert forall|i: int| 0 <= i < consumers.len() implies {
            &&& self.tasks.contains_key(#[trigger] consumers[i])
            &&& self.tasks[consumers[i]].state != TaskState::Waiting(0)
        } by {
            let c = consumers[i];
            assert(self.tasks.contains_key(c));
            assert(self.task_ok(c));
            if self.tasks[c].state == TaskState::Waiting(0) {
                crate::idlist::lemma_count_bound(self.tasks[c].deps, |d: TaskId| self.is_unfinished(d));
                let k = choose|k: int| 0 <= k < self.tasks[c].deps.len() && self.tasks[c].deps[k] == id;
                assert(self.is_unfinished(self.tasks[c].deps[k]));
            }
        }
    }

    /// The task can leave the graph: the client has released it, no task
    /// reads its result, and it is not on a worker.
    pub open spec fn removable(self, id: TaskId) -> bool {
        &&& self.tasks.contains_key(id)
        &&& self.tasks[id].released
        &&& self.tasks[id].consumers.len() == 0
        &&& self.tasks[id].on_worker() is None
    }

    /// The result of the task can be dropped: the task is finished, the
    /// client has released it, and no task that reads it has still to be
    /// done.
    pub open spec fn releasable(self, id: TaskId) -> bool {
        &&& self.tasks.contains_key(id)
        &&& self.tasks[id].released
        &&& self.tasks[id].state is Finished
        &&& forall|i: int|
            0 <= i < self.tasks[id].consumers.len() ==> !self.tasks[#[trigger] self.tasks[id].consumers[i]].unfinished()
    }

    /// The requests to the workers at `locations` to drop the task `id`.
    pub open spec fn removals(id: TaskId, locations: Seq<WorkerId>) -> Seq<OutputView> {
        Seq::new(locations.len(), |i: int| OutputView::RemoveTask { worker: locations[i], task: id })
    }

    /// The workers after those at `locations` have dropped the result `id`.
    pub open spec fn without_data(self, locations: Seq<WorkerId>, id: TaskId) -> Map<
        WorkerId,
        WorkerView,
    > {
        Map::new(
            |worker: WorkerId| self.workers.contains_key(worker),
            |worker: WorkerId|
                if locations.contains(worker) {
                    WorkerView { data: without(self.workers[worker].data, id), ..self.workers[worker] }
                } else {
                    self.workers[worker]
                },
        )
    }

    /// The graph after every worker that holds the result of the task `id`
    /// has been asked to drop it.
    pub open spec fn drop_result(self, id: TaskId) -> SchedulerView {
        let task = self.tasks[id];
        SchedulerView {
            tasks: self.tasks.insert(id, TaskView { locations: Seq::empty(), ..task }),
            workers: self.without_data(task.locations, id),
            outbox: self.outbox + Self::removals(id, task.locations),
            ..self
        }
    }

    /// The graph after the result of the finished task `id` has been given
    /// up: the workers drop it and the task is released.
    pub open spec fn release_memory(self, id: TaskId) -> SchedulerView {
        let dropped = self.drop_result(id);
        SchedulerView {
            tasks: dropped.tasks.insert(
                id,
                TaskView { state: TaskState::Released, ..dropped.tasks[id] },
            ),
            ..dropped
        }
    }

    /// The tasks after each of `deps` has lost `consumer` as a consumer.
    pub open spec fn without_consumer(self, deps: Seq<TaskId>, consumer: TaskId) -> Map<
        TaskId,
        TaskView,
    > {
        Map::new(
            |id: TaskId| self.tasks.contains_key(id),
            |id: TaskId|
                if deps.contains(id) {
                    TaskView { consumers: without(self.tasks[id].consumers, consumer), ..self.tasks[id] }
                } else {
                    self.tasks[id]
                },
        )
    }

    /// The graph after the task `id` has left it: the workers drop its
    /// result, and its dependencies lose it as a consumer.
    pub open spec fn remove_node(self, id: TaskId) -> SchedulerView {
        let dropped = self.drop_result(id);
        SchedulerView {
            tasks: dropped.without_consumer(self.tasks[id].deps, id).remove(id),
            ready: without(self.ready, id),
            ..dropped
        }
    }

    /// The graph after the tasks of `work` have been looked at, last first:
    /// a task that can leave the graph leaves it, and its dependencies are
    /// looked at in turn; the result of a task that cannot leave but needs
    /// no keeping is dropped.
    pub open spec fn collect(self, work: Seq<TaskId>) -> SchedulerView
        decreases self.tasks.dom().len(), work.len(),
        when self.tasks.dom().finite()
    {
        if work.len() == 0 {
            self
        } else {
            let id = work.last();
            let rest = work.drop_last();
            if self.removable(id) {
                proof {
                    assert(self.remove_node(id).tasks.dom() =~= self.tasks.dom().remove(id));
                }
                self.remove_node(id).collect(rest + self.tasks[id].deps)
            } else if self.releasable(id) {
                proof {
                    assert(self.release_memory(id).tasks.dom() =~= self.tasks.dom());
                }
                self.release_memory(id).collect(rest)
            } else {
                self.collect(rest)
            }
        }
    }

    /// Giving up the result of a finished task keeps the graph consistent.
    pub proof fn lemma_release_memory(self, id: TaskId)
        requires
            self.core_inv(),
            self.releasable(id),
        ensures
            self.release_memory(id).core_inv(),
            self.release_memory(id).worker_order == self.worker_order,
            self.release_memory(id).tasks.dom() == self.tasks.dom(),
    {
        reveal(SchedulerView::core_inv);
        let after = self.release_memory(id);
        let task = self.tasks[id];
        assert(self.task_ok(id));
        assert(after.tasks.dom() =~= self.tasks.dom());
        assert(after.workers.dom() =~= self.workers.dom());
        assert(!self.ready.contains(id));
        assert forall|other: TaskId| other != id implies (self.is_unfinished(other) == after.is_unfinished(
            other,
        )) by {}
        assert forall|other: TaskId| #[trigger] after.tasks.contains_key(other) implies after.task_ok(
            other,
        ) by {
            assert(self.task_ok(other));
            let before = self.tasks[other];
            let t = after.tasks[other];
            assert(after.links_ok(other)) by {
                assert forall|i: int| 0 <= i < t.deps.len() implies {
                    &&& after.tasks.contains_key(#[trigger] t.deps[i])
                    &&& after.tasks[t.deps[i]].consumers.contains(other)
                } by {
                    assert(self.tasks.contains_key(before.deps[i]));
                }
                assert forall|i: int| 0 <= i < t.consumers.len() implies {
                    &&& after.tasks.contains_key(#[trigger] t.consumers[i])
                    &&& after.tasks[t.consumers[i]].deps.contains(other)
                } by {
                    assert(self.tasks.contains_key(before.consumers[i]));
                }
            }
            assert(after.locations_ok(other)) by {
                if other != id {
                    assert forall|i: int| 0 <= i < t.locations.len() implies {
                        &&& after.workers.contains_key(#[trigger] t.locations[i])
                        &&& after.workers[t.locations[i]].data.contains(other)
                    } by {
                        let w = before.locations[i];
                        assert(self.workers.contains_key(w));
                        assert(self.workers[w].data.contains(other));
                        crate::idlist::lemma_without(self.workers[w].data, id);
                    }
                }
            }
            assert(after.state_ok(other)) by {
                if other != id {
                    if before.deps.contains(id) {
                        let k = choose|k: int| 0 <= k < before.deps.len() && before.deps[k] == id;
                        assert(self.tasks[before.deps[k]].consumers.contains(other));
                        let c = choose|c: int| 0 <= c < task.consumers.len() && task.consumers[c] == other;
                        assert(!self.tasks[task.consumers[c]].unfinished());
                    } else {
                        assert forall|i: int| 0 <= i < before.deps.len() implies self.is_unfinished(
                            #[trigger] before.deps[i],
                        ) == after.is_unfinished(before.deps[i]) by {
                            assert(before.deps.contains(before.deps[i]));
                        }
                        self.lemma_unfinished_same(after, before.deps);
                    }
                    if t.on_worker() is Some {
                        let w = t.on_worker().unwrap();
                        assert(self.workers[w].tasks.contains(other));
                    }
                }
            }
        }
        assert forall|n: WorkerId| #[trigger] after.workers.contains_key(n) implies after.worker_ok(n) by {
            assert(self.worker_ok(n));
            let w = after.workers[n];
            crate::idlist::lemma_without(self.workers[n].data, id);
            assert forall|i: int| 0 <= i < w.tasks.len() implies {
                &&& after.tasks.contains_key(#[trigger] w.tasks[i])
                &&& after.tasks[w.tasks[i]].on_worker() == Some(n)
            } by {
                assert(self.tasks.contains_key(self.workers[n].tasks[i]));
            }
            assert forall|i: int| 0 <= i < w.data.len() implies {
                &&& after.tasks.contains_key(#[trigger] w.data[i])
                &&& after.tasks[w.data[i]].locations.contains(n)
            } by {
                let x = w.data[i];
                assert(w.data.contains(x));
                assert(self.workers[n].data.contains(x));
                let k = choose|k: int| 0 <= k < self.workers[n].data.len() && self.workers[n].data[k] == x;
                assert(self.tasks.contains_key(self.workers[n].data[k]));
                assert(self.tasks[x].locations.contains(n));
                if x == id {
                    assert(task.locations.contains(n));
                    assert(!w.data.contains(id));
                }
            }
        }
        assert forall|i: int| 0 <= i < after.ready.len() implies after.tasks.contains_key(
            #[trigger] after.ready[i],
        ) by {
            assert(self.tasks.contains_key(self.ready[i]));
        }
    }

    /// A task that can leave the graph leaves a consistent graph behind.
    pub proof fn lemma_remove_node(self, id: TaskId)
        requires
            self.core_inv(),
            self.removable(id),
        ensures
            self.remove_node(id).core_inv(),
            self.remove_node(id).worker_order == self.worker_order,
            self.remove_node(id).tasks.dom() == self.tasks.dom().remove(id),
            forall|i: int|
                0 <= i < self.tasks[id].deps.len() ==> self.tasks.contains_key(
                    #[trigger] self.tasks[id].deps[i],
                ),
    {
        reveal(SchedulerView::core_inv);
        let after = self.remove_node(id);
        let task = self.tasks[id];
        assert(self.task_ok(id));
        assert(after.tasks.dom() =~= self.tasks.dom().remove(id));
        assert(after.workers.dom() =~= self.workers.dom());
        crate::idlist::lemma_without(self.ready, id);
        // no task reads the one that leaves
        assert forall|other: TaskId| self.tasks.contains_key(other) implies !self.tasks[other].deps.contains(
            id,
        ) by {
            assert(self.task_ok(other));
            if self.tasks[other].deps.contains(id) {
                let k = choose|k: int|
                    0 <= k < self.tasks[other].deps.len() && self.tasks[other].deps[k] == id;
                assert(self.tasks[self.tasks[other].deps[k]].consumers.contains(other));
                let c = choose|c: int| 0 <= c < task.consumers.len() && task.consumers[c] == other;
            }
        }
        assert forall|other: TaskId| other != id implies (self.is_unfinished(other) == after.is_unfinished(
            other,
        )) by {}
        assert forall|other: TaskId| #[trigger] after.tasks.contains_key(other) implies after.task_ok(
            other,
        ) by {
            assert(self.tasks.contains_key(other));
            assert(self.task_ok(other));
            let before = self.tasks[other];
            let t = after.tasks[other];
            crate::idlist::lemma_without(before.consumers, id);
            assert(t.deps == before.deps);
            assert(after.links_ok(other)) by {
                assert forall|i: int| 0 <= i < t.deps.len() implies {
                    &&& after.tasks.contains_key(#[trigger] t.deps[i])
                    &&& after.tasks[t.deps[i]].consumers.contains(other)
                } by {
                    let d = before.deps[i];
                    assert(before.deps.contains(d));
                    assert(self.tasks.contains_key(d));
                    assert(self.tasks[d].consumers.contains(other));
                    crate::idlist::lemma_without(self.tasks[d].consumers, id);
                }
                assert forall|i: int| 0 <= i < t.consumers.len() implies {
                    &&& after.tasks.contains_key(#[trigger] t.consumers[i])
                    &&& after.tasks[t.consumers[i]].deps.contains(other)
                } by {
                    let c = t.consumers[i];
                    assert(t.consumers.contains(c));
                    assert(before.consumers.contains(c));
                    let k = choose|k: int| 0 <= k < before.consumers.len() && before.consumers[k] == c;
                    assert(self.tasks.contains_key(before.consumers[k]));
                    assert(self.tasks[before.consumers[k]].deps.contains(other));
                    if c == id {
                        assert(task.deps.contains(other));
                        assert(!without(before.consumers, id).contains(id));
                    }
                }
            }
            assert(after.locations_ok(other)) by {
                assert forall|i: int| 0 <= i < t.locations.len() implies {
                    &&& after.workers.contains_key(#[trigger] t.locations[i])
                    &&& after.workers[t.locations[i]].data.contains(other)
                } by {
                    let w = before.locations[i];
                    assert(self.workers.contains_key(w));
                    assert(self.workers[w].data.contains(other));
                    crate::idlist::lemma_without(self.workers[w].data, id);
                }
            }
            assert(after.state_ok(other)) by {
                assert forall|i: int| 0 <= i < before.deps.len() implies self.is_unfinished(
                    #[trigger] before.deps[i],
                ) == after.is_unfinished(before.deps[i]) by {
                    assert(before.deps.contains(before.deps[i]));
                }
                self.lemma_unfinished_same(after, before.deps);
                if t.on_worker() is Some {
                    let w = t.on_worker().unwrap();
                    assert(self.workers[w].tasks.contains(other));
                }
            }
        }
        assert forall|n: WorkerId| #[trigger] after.workers.contains_key(n) implies after.worker_ok(n) by {
            assert(self.worker_ok(n));
            let w = after.workers[n];
            crate::idlist::lemma_without(self.workers[n].data, id);
            assert forall|i: int| 0 <= i < w.tasks.len() implies {
                &&& after.tasks.contains_key(#[trigger] w.tasks[i])
                &&& after.tasks[w.tasks[i]].on_worker() == Some(n)
            } by {
                assert(self.tasks.contains_key(self.workers[n].tasks[i]));
            }
            assert forall|i: int| 0 <= i < w.data.len() implies {
                &&& after.tasks.contains_key(#[trigger] w.data[i])
                &&& after.tasks[w.data[i]].locations.contains(n)
            } by {
                let x = w.data[i];
                assert(w.data.contains(x));
                assert(self.workers[n].data.contains(x));
                let k = choose|k: int| 0 <= k < self.workers[n].data.len() && self.workers[n].data[k] == x;
                assert(self.tasks.contains_key(self.workers[n].data[k]));
                assert(self.tasks[x].locations.contains(n));
                if x == id {
                    assert(task.locations.contains(n));
                    assert(!w.data.contains(id));
                }
            }
        }
        assert forall|i: int| 0 <= i < after.ready.len() implies after.tasks.contains_key(
            #[trigger] after.ready[i],
        ) by {
            let x = after.ready[i];
            assert(after.ready.contains(x));
            assert(self.ready.contains(x));
            let k = choose|k: int| 0 <= k < self.ready.len() && self.ready[k] == x;
            assert(self.tasks.contains_key(self.ready[k]));
        }
    }

    /// Looking for tasks that can go keeps the graph consistent.
    pub proof fn lemma_collect(self, work: Seq<TaskId>)
        requires
            self.core_inv(),
        ensures
            self.collect(work).core_inv(),
            self.collect(work).worker_order == self.worker_order,
        decreases self.tasks.dom().len(), work.len(),
    {
        assert(self.tasks.dom().finite()) by {
            reveal(SchedulerView::core_inv);
        }
        if work.len() > 0 {
            let id = work.last();
            let rest = work.drop_last();
            if self.removable(id) {
                self.lemma_remove_node(id);
                self.remove_node(id).lemma_collect(rest + self.tasks[id].deps);
            } else if self.releasable(id) {
                self.lemma_release_memory(id);
                self.release_memory(id).lemma_collect(rest);
            } else {
                self.lemma_collect(rest);
            }
        }
    }

    /// The scheduler after a finished task: its consumers are told, tasks
    /// that need no keeping any more are dropped, and tasks that wait for
    /// nothing are placed. A report about a task that is not on the worker
    /// changes nothing.
    pub open spec fn task_finished(self, worker: WorkerId, id: TaskId, size: u64) -> SchedulerView {
        if self.finish_applies(worker, id) {
            self.mark_finished(worker, id, size).collect(self.tasks[id].deps.push(id)).place_ready()
        } else {
            self
        }
    }

    /// A finished task keeps the scheduler consistent.
    pub proof fn lemma_task_finished(self, worker: WorkerId, id: TaskId, size: u64)
        requires
            self.inv(),
        ensures
            self.task_finished(worker, id, size).inv(),
    {
        if self.finish_applies(worker, id) {
            self.lemma_mark_finished(worker, id, size);
            let marked = self.mark_finished(worker, id, size);
            marked.lemma_collect(self.tasks[id].deps.push(id));
            marked.collect(self.tasks[id].deps.push(id)).lemma_place_ready();
        }
    }

    /// The graph after the client has released the task `id`.
    pub open spec fn mark_released(self, id: TaskId) -> SchedulerView {
        SchedulerView {
            tasks: self.tasks.insert(id, TaskView { released: true, ..self.tasks[id] }),
            ..self
        }
    }

    /// The scheduler after the client has released the task `id`: the task
    /// leaves the graph, or its result is dropped, as soon as nothing needs
    /// it. The release of a task that is not known changes nothing.
    pub open spec fn client_release(self, id: TaskId) -> SchedulerView {
        if self.tasks.contains_key(id) {
            self.mark_released(id).collect(Seq::empty().push(id)).place_ready()
        } else {
            self
        }
    }

    /// Outputs, and whether the client has released a task, do not matter
    /// for the consistency of the graph.
    pub proof fn lemma_same_graph(self, other: SchedulerView)
        requires
            self.core_inv(),
            other.workers == self.workers,
            other.worker_order == self.worker_order,
            other.ready == self.ready,
            other.tasks.dom() == self.tasks.dom(),
            forall|id: TaskId| #[trigger]
                self.tasks.contains_key(id) ==> other.tasks[id] == (TaskView {
                    released: other.tasks[id].released,
                    ..self.tasks[id]
                }) && (self.tasks[id].released ==> other.tasks[id].released),
        ensures
            other.core_inv(),
    {
        reveal(SchedulerView::core_inv);
        assert forall|id: TaskId| self.is_unfinished(id) == other.is_unfinished(id) by {}
        assert forall|id: TaskId| #[trigger] other.tasks.contains_key(id) implies other.task_ok(id) by {
            assert(self.tasks.contains_key(id));
            assert(self.task_ok(id));
            let before = self.tasks[id];
            self.lemma_unfinished_same(other, before.deps);
            assert(other.links_ok(id)) by {
                assert forall|i: int| 0 <= i < before.deps.len() implies {
                    &&& other.tasks.contains_key(#[trigger] before.deps[i])
                    &&& other.tasks[before.deps[i]].consumers.contains(id)
                } by {
                    assert(self.tasks.contains_key(before.deps[i]));
                }
                assert forall|i: int| 0 <= i < before.consumers.len() implies {
                    &&& other.tasks.contains_key(#[trigger] before.consumers[i])
                    &&& other.tasks[before.consumers[i]].deps.contains(id)
                } by {
                    assert(self.tasks.contains_key(before.consumers[i]));
                }
            }
            assert(other.state_ok(id));
            assert(other.locations_ok(id));
        }
        assert forall|n: WorkerId| #[trigger] other.workers.contains_key(n) implies other.worker_ok(n) by {
            assert(self.worker_ok(n));
            let w = other.workers[n];
            assert forall|i: int| 0 <= i < w.tasks.len() implies {
                &&& other.tasks.contains_key(#[trigger] w.tasks[i])
                &&& other.tasks[w.tasks[i]].on_worker() == Some(n)
            } by {
                assert(self.tasks.contains_key(w.tasks[i]));
            }
            assert forall|i: int| 0 <= i < w.data.len() implies {
                &&& other.tasks.contains_key(#[trigger] w.data[i])
                &&& other.tasks[w.data[i]].locations.contains(n)
            } by {
                assert(self.tasks.contains_key(w.data[i]));
            }
        }
        assert forall|i: int| 0 <= i < other.ready.len() implies other.tasks.contains_key(
            #[trigger] other.ready[i],
        ) by {
            assert(self.tasks.contains_key(self.ready[i]));
        }
    }

    /// A release by the client keeps the scheduler consistent.
    pub proof fn lemma_client_release(self, id: TaskId)
        requires
            self.inv(),
        ensures
            self.client_release(id).inv(),
            self.tasks.contains_key(id) ==> self.mark_released(id).core_inv(),
    {
        if self.tasks.contains_key(id) {
            let marked = self.mark_released(id);
            assert(marked.tasks.dom() =~= self.tasks.dom());
            self.lemma_same_graph(marked);
            marked.lemma_collect(Seq::empty().push(id));
            marked.collect(Seq::empty().push(id)).lemma_place_ready();
        }
    }
}

} // verus!
