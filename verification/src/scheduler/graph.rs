//! The scheduler: the graph of tasks and workers, and what each event does
//! to it.

use crate::common::{PriorityValue, TaskId, WorkerId};
use crate::idlist::{all_distinct, contains_id, remove_id, remove_queued, without};
use crate::scheduler::kind::SchedulerType;
use crate::scheduler::messages::{output_views, SchedulerEvent, SchedulerOutput};
use crate::scheduler::model::{capped, cheaper, SchedulerView};
use crate::scheduler::node::Worker;
use crate::scheduler::recovery::without_all;
use crate::scheduler::stealing::StealCommand;
use crate::worker::messages::StealResponse;
use crate::scheduler::task::{Task, TaskState, TaskView};
use crate::table::IdTable;
use crate::worker::reactor::{dependency_views, Dependency};
use std::collections::VecDeque;
use vstd::prelude::*;

verus! {

/// The weight of the load of a worker, unless another one is asked for.
pub const DEFAULT_ALPHA: u32 = 1;

/// The weight of the bytes to move, unless another one is asked for.
pub const DEFAULT_BETA: u32 = 1;

/// By how much a steal has to lower the cost, unless another margin is asked
/// for.
pub const DEFAULT_EPSILON: u64 = 0;

/// The scheduler: it owns the graph of tasks and the workers, takes in events
/// and decides what the workers have to do. Its outputs wait in an outbox
/// until they are taken away.
pub struct Scheduler {
    kind: SchedulerType,
    alpha: u32,
    beta: u32,
    epsilon: u64,
    random_state: u64,
    next_priority: PriorityValue,
    tasks: IdTable<Task>,
    workers: IdTable<Worker>,
    worker_order: Vec<WorkerId>,
    ready: VecDeque<TaskId>,
    outbox: Vec<SchedulerOutput>,
}

impl View for Scheduler {
    type V = SchedulerView;

    closed spec fn view(&self) -> SchedulerView {
        SchedulerView {
            kind: self.kind,
            alpha: self.alpha,
            beta: self.beta,
            epsilon: self.epsilon,
            random_state: self.random_state,
            next_priority: self.next_priority,
            tasks: self.tasks@.map_values(|task: Task| task@),
            workers: self.workers@.map_values(|worker: Worker| worker@),
            worker_order: self.worker_order@,
            ready: self.ready@,
            outbox: output_views(self.outbox@),
        }
    }
}

/// A scheduler without tasks and workers.
pub open spec fn empty_scheduler(
    kind: SchedulerType,
    alpha: u32,
    beta: u32,
    epsilon: u64,
    seed: u64,
) -> SchedulerView {
    SchedulerView {
        kind,
        alpha,
        beta,
        epsilon,
        random_state: seed,
        next_priority: 0,
        tasks: Map::empty(),
        workers: Map::empty(),
        worker_order: Seq::empty(),
        ready: Seq::empty(),
        outbox: Seq::empty(),
    }
}

impl Scheduler {
    /// The tables are sound.
    pub closed spec fn repr_ok(&self) -> bool {
        &&& self.tasks.wf()
        &&& self.workers.wf()
    }

    /// The scheduler is sound while an event is being handled.
    pub open spec fn core_wf(&self) -> bool {
        self.repr_ok() && self@.core_inv()
    }

    /// The scheduler is sound between two events.
    pub open spec fn wf(&self) -> bool {
        self.repr_ok() && self@.inv()
    }

    /// A scheduler without tasks and workers, with the weights of the cost,
    /// the margin of a steal, and the seed of the random policy.
    pub fn new(kind: SchedulerType, alpha: u32, beta: u32, epsilon: u64, seed: u64) -> (scheduler:
        Scheduler)
        ensures
            scheduler.wf(),
            scheduler@ == empty_scheduler(kind, alpha, beta, epsilon, seed),
    {
        let scheduler = Scheduler {
            kind,
            alpha,
            beta,
            epsilon,
            random_state: seed,
            next_priority: 0,
            tasks: IdTable::new(),
            workers: IdTable::new(),
            worker_order: Vec::new(),
            ready: VecDeque::new(),
            outbox: Vec::new(),
        };
        proof {
            assert(scheduler@ =~= empty_scheduler(kind, alpha, beta, epsilon, seed));
            scheduler@.lemma_empty();
        }
        scheduler
    }

    /// The policy by which tasks are placed.
    pub fn kind(&self) -> (kind: SchedulerType)
        ensures
            kind == self@.kind,
    {
        self.kind
    }

    /// The size of the result of the task `id`, as far as it is known.
    fn size_of(&self, id: TaskId) -> (size: u64)
        requires
            self.core_wf(),
            self@.tasks.contains_key(id),
        ensures
            size == self@.size_of(id),
    {
        match self.tasks.get(id) {
            Some(task) => match task.size {
                Some(size) => size,
                None => 0,
            },
            None => 0,
        }
    }

    /// The bytes of `deps` that are not on `worker`, up to the largest 64-bit
    /// number.
    fn remote_bytes(&self, worker: WorkerId, deps: &Vec<TaskId>) -> (bytes: u64)
        requires
            self.core_wf(),
            forall|i: int| 0 <= i < deps@.len() ==> self@.tasks.contains_key(#[trigger] deps@[i]),
        ensures
            bytes == capped(self@.remote_bytes(worker, deps@)),
    {
        let mut bytes: u64 = 0;
        let mut i: usize = 0;
        while i < deps.len()
            invariant
                i <= deps@.len(),
                self.core_wf(),
                forall|j: int| 0 <= j < deps@.len() ==> self@.tasks.contains_key(#[trigger] deps@[j]),
                bytes == capped(self@.remote_bytes(worker, deps@.take(i as int))),
            decreases deps@.len() - i,
        {
            let dep = deps[i];
            proof {
                assert(deps@.take(i + 1).drop_last() =~= deps@.take(i as int));
                assert(deps@.take(i + 1).last() == dep);
                assert(self@.tasks.contains_key(deps@[i as int]));
            }
            let located = match self.tasks.get(dep) {
                Some(task) => contains_id(&task.locations, worker),
                None => false,
            };
            if !located {
                let size = self.size_of(dep);
                if size > u64::MAX - bytes {
                    bytes = u64::MAX;
                } else {
                    bytes = bytes + size;
                }
            }
            i += 1;
        }
        proof {
            assert(deps@.take(i as int) =~= deps@);
        }
        bytes
    }

    /// What it costs to run a task that reads `deps` on `worker`.
    fn cost(&self, worker: WorkerId, deps: &Vec<TaskId>) -> (cost: u128)
        requires
            self.core_wf(),
            self@.workers.contains_key(worker),
            forall|i: int| 0 <= i < deps@.len() ==> self@.tasks.contains_key(#[trigger] deps@[i]),
        ensures
            cost == self@.cost(worker, deps@),
    {
        let load = match self.workers.get(worker) {
            Some(node) => node.tasks.len(),
            None => 0,
        };
        let bytes = self.remote_bytes(worker, deps);
        let alpha = self.alpha as u128;
        let beta = self.beta as u128;
        assert(alpha * (load as u128) <= 0xffff_ffff * 0xffff_ffff_ffff_ffff) by (nonlinear_arith)
            requires
                alpha <= 0xffff_ffff,
                load <= 0xffff_ffff_ffff_ffff,
        ;
        assert(beta * (bytes as u128) <= 0xffff_ffff * 0xffff_ffff_ffff_ffff) by (nonlinear_arith)
            requires
                beta <= 0xffff_ffff,
                bytes <= 0xffff_ffff_ffff_ffff,
        ;
        alpha * (load as u128) + beta * (bytes as u128)
    }

    /// The workers that have a core to spare, in the order in which they
    /// joined.
    fn with_capacity(&self) -> (pool: Vec<WorkerId>)
        requires
            self.core_wf(),
        ensures
            pool@ == self@.with_capacity(self@.worker_order),
    {
        let mut pool: Vec<WorkerId> = Vec::new();
        let mut i: usize = 0;
        while i < self.worker_order.len()
            invariant
                i <= self.worker_order@.len(),
                self.core_wf(),
                pool@ == self@.with_capacity(self@.worker_order.take(i as int)),
            decreases self.worker_order@.len() - i,
        {
            let worker = self.worker_order[i];
            proof {
                assert(self@.worker_order.take(i + 1).drop_last() =~= self@.worker_order.take(i as int));
                assert(self@.worker_order.take(i + 1).last() == worker);
                self@.lemma_order();
            }
            let free = match self.workers.get(worker) {
                Some(node) => node.has_capacity(),
                None => false,
            };
            if free {
                pool.push(worker);
            }
            i += 1;
        }
        proof {
            assert(self@.worker_order.take(i as int) =~= self@.worker_order);
        }
        pool
    }

    /// The cheapest worker for a task that reads `deps`.
    fn pick_cheapest(&self, deps: &Vec<TaskId>) -> (best: WorkerId)
        requires
            self.core_wf(),
            self@.worker_order.len() > 0,
            forall|i: int| 0 <= i < deps@.len() ==> self@.tasks.contains_key(#[trigger] deps@[i]),
        ensures
            self@.is_cheapest(best, deps@),
    {
        proof {
            self@.lemma_order();
        }
        let mut best = self.worker_order[0];
        let mut best_cost = self.cost(best, deps);
        let mut i: usize = 1;
        while i < self.worker_order.len()
            invariant
                1 <= i <= self.worker_order@.len(),
                self.core_wf(),
                forall|j: int| 0 <= j < deps@.len() ==> self@.tasks.contains_key(#[trigger] deps@[j]),
                self@.workers.contains_key(best),
                best_cost == self@.cost(best, deps@),
                forall|j: int|
                    0 <= j < i ==> cheaper(
                        best,
                        best_cost as int,
                        #[trigger] self@.worker_order[j],
                        self@.cost(self@.worker_order[j], deps@),
                    ),
            decreases self.worker_order@.len() - i,
        {
            let worker = self.worker_order[i];
            proof {
                self@.lemma_order();
            }
            let cost = self.cost(worker, deps);
            if cost < best_cost || (cost == best_cost && worker < best) {
                best = worker;
                best_cost = cost;
            }
            i += 1;
        }
        proof {
            assert forall|other: WorkerId| #[trigger] self@.workers.contains_key(other) implies cheaper(
                best,
                self@.cost(best, deps@),
                other,
                self@.cost(other, deps@),
            ) by {
                self@.lemma_order();
                let j = choose|j: int| 0 <= j < self@.worker_order.len() && self@.worker_order[j] == other;
                assert(cheaper(
                    best,
                    best_cost as int,
                    self@.worker_order[j],
                    self@.cost(self@.worker_order[j], deps@),
                ));
            }
        }
        best
    }

    /// The worker on which a task that reads `deps` would be placed now:
    /// none without workers; by the work-stealing policy the worker of the
    /// least cost, the smaller identifier deciding between equal costs; by
    /// the random policy a worker drawn among those with a core to spare, or
    /// among all of them if there is none. Nothing is changed.
    pub fn pick_target(&self, deps: &Vec<TaskId>) -> (target: Option<WorkerId>)
        requires
            self.core_wf(),
            forall|i: int| 0 <= i < deps@.len() ==> self@.tasks.contains_key(#[trigger] deps@[i]),
        ensures
            target == self@.pick_target(deps@),
    {
        if self.worker_order.len() == 0 {
            return None;
        }
        match self.kind {
            SchedulerType::Workstealing => {
                let best = self.pick_cheapest(deps);
                proof {
                    self@.lemma_pick_target(deps@);
                    self@.lemma_cheapest_unique(best, self@.pick_target(deps@).unwrap(), deps@);
                }
                Some(best)
            },
            SchedulerType::Random => {
                let spare = self.with_capacity();
                let draw = self.random_state / 0x2_0000_0000;
                if spare.len() > 0 {
                    let index = (draw % (spare.len() as u64)) as usize;
                    Some(spare[index])
                } else {
                    let index = (draw % (self.worker_order.len() as u64)) as usize;
                    Some(self.worker_order[index])
                }
            },
        }
    }

    /// What a worker is told about the dependencies `deps`.
    fn dependency_info(&self, deps: &Vec<TaskId>) -> (info: Vec<Dependency>)
        requires
            self.core_wf(),
            forall|i: int| 0 <= i < deps@.len() ==> self@.tasks.contains_key(#[trigger] deps@[i]),
        ensures
            dependency_views(info@) == self@.dependency_info(deps@),
    {
        let mut info: Vec<Dependency> = Vec::new();
        let mut i: usize = 0;
        while i < deps.len()
            invariant
                i <= deps@.len(),
                self.core_wf(),
                forall|j: int| 0 <= j < deps@.len() ==> self@.tasks.contains_key(#[trigger] deps@[j]),
                info@.len() == i,
                forall|j: int| 0 <= j < i ==> (#[trigger] info@[j])@ == self@.dependency_info(deps@)[j],
            decreases deps@.len() - i,
        {
            let dep = deps[i];
            proof {
                assert(self@.tasks.contains_key(deps@[i as int]));
            }
            let size = self.size_of(dep);
            let workers = match self.tasks.get(dep) {
                Some(task) => task.locations.clone(),
                None => Vec::new(),
            };
            info.push(Dependency { id: dep, size, workers });
            i += 1;
        }
        proof {
            assert(dependency_views(info@) =~= self@.dependency_info(deps@));
        }
        info
    }

    /// Places the oldest task that waits for nothing.
    fn place_first(&mut self)
        requires
            old(self).core_wf(),
            old(self)@.worker_order.len() > 0,
            old(self)@.ready.len() > 0,
        ensures
            final(self).core_wf(),
            final(self)@ == old(self)@.place_first(),
    {
        let ghost before = self@;
        proof {
            before.lemma_place_first();
            before.lemma_ready(0);
            before.lemma_pick_target(before.tasks[before.ready[0]].deps);
        }
        let id = self.ready[0];
        let (target, deps) = match self.tasks.get(id) {
            Some(task) => (self.pick_target(&task.deps), self.dependency_info(&task.deps)),
            None => (None, Vec::new()),
        };
        let worker = target.unwrap();
        self.ready.pop_front();
        let ghost tasks_before = self.tasks@;
        let taken = self.tasks.remove(id);
        let mut task = taken.unwrap();
        task.state = TaskState::Assigned(worker);
        task.steal_target = None;
        let priority = task.priority;
        self.tasks.insert(id, task);
        let ghost workers_before = self.workers@;
        let found = self.workers.remove(worker);
        let mut node = found.unwrap();
        node.tasks.push(id);
        self.workers.insert(worker, node);
        let ghost outbox_before = self.outbox@;
        self.outbox.push(SchedulerOutput::Assign { worker, task: id, priority, deps });
        match self.kind {
            SchedulerType::Workstealing => {},
            SchedulerType::Random => {
                self.random_state = self.random_state.wrapping_mul(6364136223846793005).wrapping_add(
                    1442695040888963407,
                );
            },
        }
        proof {
            let expected = before.place_first();
            assert(self.tasks@ =~= tasks_before.insert(id, task));
            assert(self.workers@ =~= workers_before.insert(worker, node));
            assert(self@.tasks =~= expected.tasks);
            assert(self@.workers =~= expected.workers);
            assert(self@.ready =~= expected.ready);
            assert(output_views(self.outbox@) =~= output_views(outbox_before).push(
                self.outbox@[outbox_before.len() as int]@,
            ));
            assert(self@.outbox =~= expected.outbox);
            assert(self@ =~= expected);
        }
    }

    /// Places every task that waits for nothing, oldest first, if there is
    /// a worker.
    fn place_ready(&mut self)
        requires
            old(self).core_wf(),
        ensures
            final(self).wf(),
            final(self)@ == old(self)@.place_ready(),
    {
        proof {
            old(self)@.lemma_place_ready();
        }
        if self.worker_order.len() == 0 {
            return ;
        }
        while self.ready.len() > 0
            invariant
                self.core_wf(),
                self@.worker_order.len() > 0,
                self@.place_ready() == old(self)@.place_ready(),
            decreases self@.ready.len(),
        {
            proof {
                self@.lemma_place_first();
            }
            self.place_first();
        }
    }

    /// Takes in a worker that has joined, with the address at which other
    /// workers reach it and the number of its cores. A worker that is known
    /// already changes nothing. Tasks that wait for nothing are placed.
    pub fn worker_added(&mut self, id: WorkerId, address: String, ncpus: u32)
        requires
            old(self).wf(),
        ensures
            final(self).wf(),
            final(self)@ == old(self)@.worker_added(id, address@, ncpus),
    {
        let ghost before = self@;
        proof {
            before.lemma_worker_added(id, address@, ncpus);
        }
        if self.workers.contains(id) {
            return ;
        }
        let ghost joined = before.joined(id, address@, ncpus);
        let node = Worker { id, listen_address: address, ncpus, tasks: Vec::new(), data: Vec::new() };
        self.workers.insert(id, node);
        self.worker_order.push(id);
        proof {
            assert(self@.workers =~= joined.workers);
            assert(self@.tasks =~= joined.tasks);
            assert(self@ =~= joined);
            before.lemma_joined(id, address@, ncpus);
        }
        self.place_ready();
    }

    /// Tells whether every task of `deps` is known.
    fn all_known(&self, deps: &Vec<TaskId>) -> (known: bool)
        requires
            self.core_wf(),
        ensures
            known == forall|i: int| 0 <= i < deps@.len() ==> self@.tasks.contains_key(#[trigger] deps@[i]),
    {
        let mut i: usize = 0;
        while i < deps.len()
            invariant
                i <= deps@.len(),
                self.core_wf(),
                forall|j: int| 0 <= j < i ==> self@.tasks.contains_key(#[trigger] deps@[j]),
            decreases deps@.len() - i,
        {
            if !self.tasks.contains(deps[i]) {
                assert(!self@.tasks.contains_key(deps@[i as int]));
                return false;
            }
            i += 1;
        }
        true
    }

    /// Counts the tasks of `deps` that are not finished.
    fn unfinished_deps(&self, deps: &Vec<TaskId>) -> (count: usize)
        requires
            self.core_wf(),
        ensures
            count == self@.unfinished_deps(deps@),
    {
        let ghost pred = |id: TaskId| self@.is_unfinished(id);
        let mut count: usize = 0;
        let mut i: usize = 0;
        while i < deps.len()
            invariant
                i <= deps@.len(),
                self.core_wf(),
                pred == |id: TaskId| self@.is_unfinished(id),
                count == crate::idlist::count_where(deps@.take(i as int), pred),
                count <= i,
            decreases deps@.len() - i,
        {
            proof {
                assert(deps@.take(i + 1).drop_last() =~= deps@.take(i as int));
                assert(deps@.take(i + 1).last() == deps@[i as int]);
            }
            let finished = match self.tasks.get(deps[i]) {
                Some(task) => task.is_finished(),
                None => false,
            };
            if !finished {
                count += 1;
            }
            i += 1;
        }
        proof {
            assert(deps@.take(i as int) =~= deps@);
        }
        count
    }

    /// Enters `consumer` among the consumers of each task of `deps`.
    fn add_consumer(&mut self, deps: &Vec<TaskId>, consumer: TaskId)
        requires
            old(self).core_wf(),
            old(self)@.submit_applies(consumer, deps@),
        ensures
            final(self).repr_ok(),
            final(self)@ == (SchedulerView {
                tasks: old(self)@.with_consumer(deps@, consumer),
                ..old(self)@
            }),
    {
        let ghost before = self@;
        assert(self@.tasks =~= before.with_consumer(deps@.take(0), consumer));
        let mut i: usize = 0;
        while i < deps.len()
            invariant
                i <= deps@.len(),
                self.repr_ok(),
                before.core_inv(),
                before.submit_applies(consumer, deps@),
                self@ == (SchedulerView { tasks: self@.tasks, ..before }),
                self@.tasks == before.with_consumer(deps@.take(i as int), consumer),
            decreases deps@.len() - i,
        {
            let dep = deps[i];
            let ghost current = self@;
            let ghost done = deps@.take(i as int);
            proof {
                assert(before.tasks.contains_key(deps@[i as int]));
                assert(!done.contains(dep)) by {
                    if done.contains(dep) {
                        let j = choose|j: int| 0 <= j < done.len() && done[j] == dep;
                        assert(deps@[j] == deps@[i as int]);
                    }
                }
                assert(current.tasks.contains_key(dep));
                assert(current.tasks[dep] == before.tasks[dep]);
                assert(self.tasks@.contains_key(dep));
            }
            let ghost table = self.tasks@;
            let taken = self.tasks.remove(dep);
            let mut task = taken.unwrap();
            task.consumers.push(consumer);
            self.tasks.insert(dep, task);
            proof {
                let next = deps@.take(i + 1);
                assert forall|d: TaskId| next.contains(d) == (done.contains(d) || d == dep) by {
                    if next.contains(d) {
                        let j = choose|j: int| 0 <= j < next.len() && next[j] == d;
                        if j < i {
                            assert(done[j] == d);
                        }
                    }
                    if done.contains(d) {
                        let j = choose|j: int| 0 <= j < done.len() && done[j] == d;
                        assert(next[j] == d);
                    }
                    if d == dep {
                        assert(next[i as int] == d);
                    }
                }
                assert(self.tasks@ =~= table.insert(dep, task));
                assert(self@.tasks =~= current.tasks.insert(dep, task@));
                assert(task@ == (crate::scheduler::task::TaskView {
                    consumers: before.tasks[dep].consumers.push(consumer),
                    ..before.tasks[dep]
                }));
                assert(self@.tasks =~= before.with_consumer(next, consumer));
                assert(self@.workers =~= before.workers);
                assert(self@ =~= (SchedulerView { tasks: self@.tasks, ..before }));
            }
            i += 1;
        }
        proof {
            assert(deps@.take(i as int) =~= deps@);
        }
    }

    /// Enters a task whose submission can be taken in.
    fn enter_task(&mut self, id: TaskId, deps: Vec<TaskId>, priority: PriorityValue, size: Option<u64>)
        requires
            old(self).core_wf(),
            old(self)@.submit_applies(id, deps@),
        ensures
            final(self).core_wf(),
            final(self)@ == old(self)@.enter_task(id, deps@, priority, size),
    {
        let ghost before = self@;
        proof {
            assert(deps@.len() == deps.len());
            before.lemma_enter_task(id, deps@, priority, size);
        }
        let count = self.unfinished_deps(&deps);
        self.add_consumer(&deps, id);
        let ghost mapped = self@.tasks;
        let ghost names = deps@;
        let task = Task {
            id,
            state: TaskState::Waiting(count),
            priority: (priority, self.next_priority),
            deps,
            consumers: Vec::new(),
            size,
            locations: Vec::new(),
            released: false,
            steal_target: None,
        };
        assert(task@ == before.submitted_task(id, names, priority, size));
        self.tasks.insert(id, task);
        if self.next_priority < i32::MAX {
            self.next_priority = self.next_priority + 1;
        }
        if count == 0 {
            self.ready.push_back(id);
        }
        proof {
            let expected = before.enter_task(id, names, priority, size);
            assert(self@.tasks =~= mapped.insert(id, before.submitted_task(id, names, priority, size)));
            assert(self@.tasks =~= expected.tasks);
            assert(self@.workers =~= expected.workers);
            assert(self@ =~= expected);
        }
    }

    /// Takes in a task that the client submits: its identifier, the tasks
    /// whose results it reads, the priority of the client, and the expected
    /// size of the result if it is known. A submission changes nothing when
    /// the task is known already, when a dependency is not known, or when a
    /// dependency is named twice. Otherwise the task waits for its
    /// unfinished dependencies; a task that waits for nothing is placed.
    pub fn task_submit(&mut self, id: TaskId, deps: Vec<TaskId>, priority: PriorityValue, size: Option<u64>)
        requires
            old(self).wf(),
        ensures
            final(self).wf(),
            final(self)@ == old(self)@.task_submit(id, deps@, priority, size),
    {
        if self.tasks.contains(id) || !all_distinct(&deps) || !self.all_known(&deps) {
            return ;
        }
        self.enter_task(id, deps, priority, size);
        self.place_ready();
    }

    /// Tells each waiting task of `consumers` that one more of its
    /// dependencies is finished.
    fn notify(&mut self, consumers: &Vec<TaskId>)
        requires
            old(self).repr_ok(),
            consumers@.no_duplicates(),
            forall|i: int|
                0 <= i < consumers@.len() ==> {
                    &&& old(self)@.tasks.contains_key(#[trigger] consumers@[i])
                    &&& old(self)@.tasks[consumers@[i]].state != TaskState::Waiting(0)
                },
        ensures
            final(self).repr_ok(),
            final(self)@ == (SchedulerView {
                tasks: old(self)@.notified(consumers@),
                ready: old(self)@.ready + old(self)@.last_waiters(consumers@),
                ..old(self)@
            }),
    {
        let ghost before = self@;
        proof {
            assert(self@.tasks =~= before.notified(consumers@.take(0)));
            assert(self@.ready =~= before.ready + before.last_waiters(consumers@.take(0)));
        }
        let mut i: usize = 0;
        while i < consumers.len()
            invariant
                i <= consumers@.len(),
                self.repr_ok(),
                consumers@.no_duplicates(),
                forall|j: int|
                    0 <= j < consumers@.len() ==> {
                        &&& before.tasks.contains_key(#[trigger] consumers@[j])
                        &&& before.tasks[consumers@[j]].state != TaskState::Waiting(0)
                    },
                self@ == (SchedulerView { tasks: self@.tasks, ready: self@.ready, ..before }),
                self@.tasks == before.notified(consumers@.take(i as int)),
                self@.ready == before.ready + before.last_waiters(consumers@.take(i as int)),
            decreases consumers@.len() - i,
        {
            let consumer = consumers[i];
            let ghost current = self@;
            let ghost done = consumers@.take(i as int);
            proof {
                assert(before.tasks.contains_key(consumers@[i as int]));
                assert(!done.contains(consumer)) by {
                    if done.contains(consumer) {
                        let j = choose|j: int| 0 <= j < done.len() && done[j] == consumer;
                        assert(consumers@[j] == consumers@[i as int]);
                    }
                }
                assert(current.tasks.contains_key(consumer));
                assert(current.tasks[consumer] == before.tasks[consumer]);
                assert(self.tasks@.contains_key(consumer));
                assert(consumers@.take(i + 1).drop_last() =~= done);
                assert(consumers@.take(i + 1).last() == consumer);
            }
            let ghost table = self.tasks@;
            let taken = self.tasks.remove(consumer);
            let mut task = taken.unwrap();
            match task.state {
                TaskState::Waiting(count) => {
                    task.state = TaskState::Waiting(count - 1);
                    if count == 1 {
                        self.ready.push_back(consumer);
                    }
                },
                _ => {},
            }
            self.tasks.insert(consumer, task);
            proof {
                let next = consumers@.take(i + 1);
                assert forall|d: TaskId| next.contains(d) == (done.contains(d) || d == consumer) by {
                    if next.contains(d) {
                        let j = choose|j: int| 0 <= j < next.len() && next[j] == d;
                        if j < i {
                            assert(done[j] == d);
                        }
                    }
                    if done.contains(d) {
                        let j = choose|j: int| 0 <= j < done.len() && done[j] == d;
                        assert(next[j] == d);
                    }
                    if d == consumer {
                        assert(next[i as int] == d);
                    }
                }
                assert(self.tasks@ =~= table.insert(consumer, task));
                assert(self@.tasks =~= current.tasks.insert(consumer, task@));
                assert(self@.tasks =~= before.notified(next));
                assert(self@.ready =~= before.ready + before.last_waiters(next));
                assert(self@.workers =~= before.workers);
                assert(self@ =~= (SchedulerView { tasks: self@.tasks, ready: self@.ready, ..before }));
            }
            i += 1;
        }
        proof {
            assert(consumers@.take(i as int) =~= consumers@);
        }
    }

    /// Enters that `worker` has done the task `id` with a result of `size`
    /// bytes.
    fn mark_finished(&mut self, worker: WorkerId, id: TaskId, size: u64)
        requires
            old(self).core_wf(),
            old(self)@.finish_applies(worker, id),
        ensures
            final(self).core_wf(),
            final(self)@ == old(self)@.mark_finished(worker, id, size),
    {
        let ghost before = self@;
        proof {
            before.lemma_mark_finished(worker, id, size);
            before.lemma_task(id);
            before.lemma_consumers_wait(id);
        }
        let consumers = match self.tasks.get(id) {
            Some(task) => task.consumers.clone(),
            None => Vec::new(),
        };
        assert(consumers@ =~= before.tasks[id].consumers);
        self.notify(&consumers);
        let ghost notified = self@;
        let ghost table = self.tasks@;
        proof {
            assert(notified.tasks.contains_key(id));
            assert(notified.tasks[id] == before.tasks[id]);
            assert(table.contains_key(id));
        }
        let taken = self.tasks.remove(id);
        let mut task = taken.unwrap();
        task.state = TaskState::Finished;
        let mut locations: Vec<WorkerId> = Vec::new();
        locations.push(worker);
        task.locations = locations;
        task.size = Some(size);
        task.steal_target = None;
        self.tasks.insert(id, task);
        let ghost workers_before = self.workers@;
        proof {
            assert(task.locations@ =~= Seq::empty().push(worker));
            assert(before.workers.contains_key(worker));
            assert(workers_before.contains_key(worker));
        }
        let found = self.workers.remove(worker);
        let mut node = found.unwrap();
        remove_id(&mut node.tasks, id);
        node.data.push(id);
        self.workers.insert(worker, node);
        proof {
            let expected = before.mark_finished(worker, id, size);
            assert(self.tasks@ =~= table.insert(id, task));
            assert(self@.tasks =~= notified.tasks.insert(id, task@));
            assert(self.workers@ =~= workers_before.insert(worker, node));
            assert(self@.tasks =~= expected.tasks);
            assert(self@.workers =~= expected.workers);
            assert(self@ =~= expected);
        }
    }

    /// Asks the workers at `locations` to drop the result `id` and takes it
    /// off their lists.
    fn forget_data(&mut self, locations: &Vec<WorkerId>, id: TaskId)
        requires
            old(self).repr_ok(),
            locations@.no_duplicates(),
            forall|i: int|
                0 <= i < locations@.len() ==> old(self)@.workers.contains_key(#[trigger] locations@[i]),
        ensures
            final(self).repr_ok(),
            final(self)@ == (SchedulerView {
                workers: old(self)@.without_data(locations@, id),
                outbox: old(self)@.outbox + SchedulerView::removals(id, locations@),
                ..old(self)@
            }),
    {
        let ghost before = self@;
        proof {
            assert(self@.workers =~= before.without_data(locations@.take(0), id));
            assert(self@.outbox =~= before.outbox + SchedulerView::removals(id, locations@.take(0)));
        }
        let mut i: usize = 0;
        while i < locations.len()
            invariant
                i <= locations@.len(),
                self.repr_ok(),
                locations@.no_duplicates(),
                forall|j: int|
                    0 <= j < locations@.len() ==> before.workers.contains_key(#[trigger] locations@[j]),
                self@ == (SchedulerView { workers: self@.workers, outbox: self@.outbox, ..before }),
                self@.workers == before.without_data(locations@.take(i as int), id),
                self@.outbox == before.outbox + SchedulerView::removals(id, locations@.take(i as int)),
            decreases locations@.len() - i,
        {
            let worker = locations[i];
            let ghost current = self@;
            let ghost done = locations@.take(i as int);
            proof {
                assert(before.workers.contains_key(locations@[i as int]));
                assert(!done.contains(worker)) by {
                    if done.contains(worker) {
                        let j = choose|j: int| 0 <= j < done.len() && done[j] == worker;
                        assert(locations@[j] == locations@[i as int]);
                    }
                }
                assert(current.workers.contains_key(worker));
                assert(current.workers[worker] == before.workers[worker]);
                assert(self.workers@.contains_key(worker));
            }
            let ghost table = self.workers@;
            let ghost outbox_before = self.outbox@;
            let found = self.workers.remove(worker);
            let mut node = found.unwrap();
            remove_id(&mut node.data, id);
            self.workers.insert(worker, node);
            self.outbox.push(SchedulerOutput::RemoveTask { worker, task: id });
            proof {
                let next = locations@.take(i + 1);
                assert forall|w: WorkerId| next.contains(w) == (done.contains(w) || w == worker) by {
                    if next.contains(w) {
                        let j = choose|j: int| 0 <= j < next.len() && next[j] == w;
                        if j < i {
                            assert(done[j] == w);
                        }
                    }
                    if done.contains(w) {
                        let j = choose|j: int| 0 <= j < done.len() && done[j] == w;
                        assert(next[j] == w);
                    }
                    if w == worker {
                        assert(next[i as int] == w);
                    }
                }
                assert(self.workers@ =~= table.insert(worker, node));
                assert(self@.workers =~= current.workers.insert(worker, node@));
                assert(self@.workers =~= before.without_data(next, id));
                assert(output_views(self.outbox@) =~= output_views(outbox_before).push(
                    self.outbox@[outbox_before.len() as int]@,
                ));
                assert(self@.outbox =~= before.outbox + SchedulerView::removals(id, next));
                assert(self@.tasks =~= before.tasks);
                assert(self@ =~= (SchedulerView {
                    workers: self@.workers,
                    outbox: self@.outbox,
                    ..before
                }));
            }
            i += 1;
        }
        proof {
            assert(locations@.take(i as int) =~= locations@);
        }
    }

    /// Asks every worker that holds the result of the task `id` to drop it.
    fn drop_result(&mut self, id: TaskId)
        requires
            old(self).core_wf(),
            old(self)@.tasks.contains_key(id),
        ensures
            final(self).repr_ok(),
            final(self)@ == old(self)@.drop_result(id),
    {
        let ghost before = self@;
        proof {
            before.lemma_task(id);
        }
        let ghost table = self.tasks@;
        let taken = self.tasks.remove(id);
        let mut task = taken.unwrap();
        let mut locations: Vec<WorkerId> = Vec::new();
        std::mem::swap(&mut locations, &mut task.locations);
        self.tasks.insert(id, task);
        proof {
            assert(self.tasks@ =~= table.insert(id, task));
            assert(self@.tasks =~= before.tasks.insert(
                id,
                TaskView { locations: Seq::empty(), ..before.tasks[id] },
            ));
            assert(self@.workers =~= before.workers);
            assert(locations@ == before.tasks[id].locations);
        }
        self.forget_data(&locations, id);
    }

    /// Gives up the result of the finished task `id`.
    fn release_memory(&mut self, id: TaskId)
        requires
            old(self).core_wf(),
            old(self)@.releasable(id),
        ensures
            final(self).core_wf(),
            final(self)@ == old(self)@.release_memory(id),
    {
        let ghost before = self@;
        proof {
            before.lemma_release_memory(id);
        }
        self.drop_result(id);
        let ghost dropped = self@;
        let ghost table = self.tasks@;
        assert(dropped.tasks.contains_key(id));
        assert(table.contains_key(id));
        let taken = self.tasks.remove(id);
        let mut task = taken.unwrap();
        task.state = TaskState::Released;
        self.tasks.insert(id, task);
        proof {
            assert(self.tasks@ =~= table.insert(id, task));
            assert(self@.tasks =~= dropped.tasks.insert(id, task@));
            assert(self@.workers =~= dropped.workers);
            assert(self@ =~= before.release_memory(id));
        }
    }

    /// Takes `consumer` off the consumers of each task of `deps`.
    fn remove_consumer(&mut self, deps: &Vec<TaskId>, consumer: TaskId)
        requires
            old(self).repr_ok(),
            deps@.no_duplicates(),
            forall|i: int| 0 <= i < deps@.len() ==> old(self)@.tasks.contains_key(#[trigger] deps@[i]),
        ensures
            final(self).repr_ok(),
            final(self)@ == (SchedulerView {
                tasks: old(self)@.without_consumer(deps@, consumer),
                ..old(self)@
            }),
    {
        let ghost before = self@;
        assert(self@.tasks =~= before.without_consumer(deps@.take(0), consumer));
        let mut i: usize = 0;
        while i < deps.len()
            invariant
                i <= deps@.len(),
                self.repr_ok(),
                deps@.no_duplicates(),
                forall|j: int| 0 <= j < deps@.len() ==> before.tasks.contains_key(#[trigger] deps@[j]),
                self@ == (SchedulerView { tasks: self@.tasks, ..before }),
                self@.tasks == before.without_consumer(deps@.take(i as int), consumer),
            decreases deps@.len() - i,
        {
            let dep = deps[i];
            let ghost current = self@;
            let ghost done = deps@.take(i as int);
            proof {
                assert(before.tasks.contains_key(deps@[i as int]));
                assert(!done.contains(dep)) by {
                    if done.contains(dep) {
                        let j = choose|j: int| 0 <= j < done.len() && done[j] == dep;
                        assert(deps@[j] == deps@[i as int]);
                    }
                }
                assert(current.tasks.contains_key(dep));
                assert(current.tasks[dep] == before.tasks[dep]);
                assert(self.tasks@.contains_key(dep));
            }
            let ghost table = self.tasks@;
            let taken = self.tasks.remove(dep);
            let mut task = taken.unwrap();
            remove_id(&mut task.consumers, consumer);
            self.tasks.insert(dep, task);
            proof {
                let next = deps@.take(i + 1);
                assert forall|d: TaskId| next.contains(d) == (done.contains(d) || d == dep) by {
                    if next.contains(d) {
                        let j = choose|j: int| 0 <= j < next.len() && next[j] == d;
                        if j < i {
                            assert(done[j] == d);
                        }
                    }
                    if done.contains(d) {
                        let j = choose|j: int| 0 <= j < done.len() && done[j] == d;
                        assert(next[j] == d);
                    }
                    if d == dep {
                        assert(next[i as int] == d);
                    }
                }
                assert(self.tasks@ =~= table.insert(dep, task));
                assert(self@.tasks =~= current.tasks.insert(dep, task@));
                assert(task@ == (TaskView {
                    consumers: without(before.tasks[dep].consumers, consumer),
                    ..before.tasks[dep]
                }));
                assert(self@.tasks =~= before.without_consumer(next, consumer));
                assert(self@.workers =~= before.workers);
                assert(self@ =~= (SchedulerView { tasks: self@.tasks, ..before }));
            }
            i += 1;
        }
        proof {
            assert(deps@.take(i as int) =~= deps@);
        }
    }

    /// Takes the task `id` out of the graph and returns the tasks whose
    /// results it read.
    fn remove_node(&mut self, id: TaskId) -> (deps: Vec<TaskId>)
        requires
            old(self).core_wf(),
            old(self)@.removable(id),
        ensures
            final(self).core_wf(),
            final(self)@ == old(self)@.remove_node(id),
            deps@ == old(self)@.tasks[id].deps,
    {
        let ghost before = self@;
        proof {
            before.lemma_remove_node(id);
            before.lemma_task(id);
        }
        let deps = match self.tasks.get(id) {
            Some(task) => task.deps.clone(),
            None => Vec::new(),
        };
        assert(deps@ =~= before.tasks[id].deps);
        self.drop_result(id);
        let ghost dropped = self@;
        self.remove_consumer(&deps, id);
        let ghost unlinked = self@;
        let ghost table = self.tasks@;
        self.tasks.remove(id);
        remove_queued(&mut self.ready, id);
        proof {
            assert(self.tasks@ =~= table.remove(id));
            assert(self@.tasks =~= unlinked.tasks.remove(id));
            assert(self@.workers =~= unlinked.workers);
            assert(self@ =~= before.remove_node(id));
        }
        deps
    }

    /// Tells whether no consumer of the task `id` has still to be done.
    fn consumers_done(&self, id: TaskId) -> (done: bool)
        requires
            self.core_wf(),
            self@.tasks.contains_key(id),
        ensures
            done == forall|i: int|
                0 <= i < self@.tasks[id].consumers.len() ==> !self@.tasks[#[trigger] self@.tasks[id].consumers[i]].unfinished(),
    {
        proof {
            self@.lemma_task(id);
        }
        match self.tasks.get(id) {
            Some(task) => {
                let mut i: usize = 0;
                while i < task.consumers.len()
                    invariant
                        i <= task.consumers@.len(),
                        self.core_wf(),
                        self@.tasks.contains_key(id),
                        task@ == self@.tasks[id],
                        self@.task_ok(id),
                        forall|j: int|
                            0 <= j < i ==> !self@.tasks[#[trigger] self@.tasks[id].consumers[j]].unfinished(),
                    decreases task.consumers@.len() - i,
                {
                    proof {
                        assert(self@.tasks.contains_key(self@.tasks[id].consumers[i as int]));
                    }
                    let unfinished = match self.tasks.get(task.consumers[i]) {
                        Some(consumer) => consumer.unfinished(),
                        None => false,
                    };
                    if unfinished {
                        assert(self@.tasks[self@.tasks[id].consumers[i as int]].unfinished());
                        return false;
                    }
                    i += 1;
                }
                true
            },
            None => true,
        }
    }

    /// Looks at the tasks of `work`, last first: a task that the client has
    /// released, that no task reads and that is on no worker leaves the
    /// graph, and the tasks it read are looked at in turn; the result of a
    /// finished and released task is dropped once no task that reads it has
    /// still to be done.
    fn collect(&mut self, work: Vec<TaskId>)
        requires
            old(self).core_wf(),
        ensures
            final(self).core_wf(),
            final(self)@ == old(self)@.collect(work@),
    {
        let mut queue = work;
        proof {
            reveal(SchedulerView::core_inv);
        }
        loop
            invariant
                self.core_wf(),
                self@.tasks.dom().finite(),
                self@.collect(queue@) == old(self)@.collect(work@),
            decreases self@.tasks.dom().len(), queue@.len(),
        {
            let ghost current = self@;
            let ghost pending = queue@;
            let next = queue.pop();
            match next {
                None => {
                    return ;
                },
                Some(id) => {
                    assert(queue@ == pending.drop_last());
                    assert(id == pending.last());
                    let (removable, releasable) = match self.tasks.get(id) {
                        Some(task) => {
                            let removable = task.released && task.consumers.len() == 0
                                && task.on_worker().is_none();
                            let releasable = !removable && task.released && task.is_finished();
                            (removable, releasable)
                        },
                        None => (false, false),
                    };
                    if removable {
                        let mut deps = self.remove_node(id);
                        queue.append(&mut deps);
                        proof {
                            current.lemma_remove_node(id);
                            reveal(SchedulerView::core_inv);
                        }
                    } else if releasable && self.consumers_done(id) {
                        self.release_memory(id);
                        proof {
                            current.lemma_release_memory(id);
                            reveal(SchedulerView::core_inv);
                        }
                    }
                },
            }
        }
    }

    /// Takes in the report of `worker` that it has done the task `id`, with
    /// a result of `size` bytes. The task is finished and its result is on
    /// that worker; the tasks that read it wait for one dependency less;
    /// results that nothing needs any more are dropped; tasks that wait for
    /// nothing are placed. A report about a task that is not on the worker
    /// changes nothing.
    pub fn task_finished(&mut self, worker: WorkerId, id: TaskId, size: u64)
        requires
            old(self).wf(),
        ensures
            final(self).wf(),
            final(self)@ == old(self)@.task_finished(worker, id, size),
    {
        let on_worker = match self.tasks.get(id) {
            Some(task) => match task.on_worker() {
                Some(on) => on == worker,
                None => false,
            },
            None => false,
        };
        if !on_worker {
            return ;
        }
        let mut work = match self.tasks.get(id) {
            Some(task) => task.deps.clone(),
            None => Vec::new(),
        };
        work.push(id);
        assert(work@ =~= old(self)@.tasks[id].deps.push(id));
        self.mark_finished(worker, id, size);
        self.collect(work);
        self.place_ready();
    }

    /// Takes in that the client has released the task `id`. The task leaves
    /// the graph once no task reads it and it is on no worker; the result of
    /// a finished task is dropped once no task that reads it has still to be
    /// done. The release of a task that is not known changes nothing.
    pub fn client_release(&mut self, id: TaskId)
        requires
            old(self).wf(),
        ensures
            final(self).wf(),
            final(self)@ == old(self)@.client_release(id),
    {
        let ghost before = self@;
        if !self.tasks.contains(id) {
            return ;
        }
        proof {
            before.lemma_client_release(id);
        }
        let ghost table = self.tasks@;
        let taken = self.tasks.remove(id);
        let mut task = taken.unwrap();
        task.released = true;
        self.tasks.insert(id, task);
        proof {
            assert(self.tasks@ =~= table.insert(id, task));
            assert(self@.tasks =~= before.mark_released(id).tasks);
            assert(self@.workers =~= before.workers);
            assert(self@ =~= before.mark_released(id));
        }
        let mut work: Vec<TaskId> = Vec::new();
        work.push(id);
        assert(work@ =~= Seq::empty().push(id));
        self.collect(work);
        self.place_ready();
    }

    /// Takes the task `id` back from its worker; with `tell` the worker is
    /// asked to drop it.
    fn requeue(&mut self, id: TaskId, tell: bool)
        requires
            old(self).core_wf(),
            old(self)@.tasks.contains_key(id),
            old(self)@.tasks[id].on_worker() is Some,
        ensures
            final(self).core_wf(),
            final(self)@ == if tell {
                old(self)@.cancel(id)
            } else {
                old(self)@.requeue(id)
            },
    {
        let ghost before = self@;
        proof {
            before.lemma_requeue(id);
            before.lemma_task(id);
            crate::idlist::lemma_count_bound(
                before.tasks[id].deps,
                |d: TaskId| before.is_unfinished(d),
            );
        }
        let count = match self.tasks.get(id) {
            Some(task) => self.unfinished_deps(&task.deps),
            None => 0,
        };
        let ghost table = self.tasks@;
        let taken = self.tasks.remove(id);
        let mut task = taken.unwrap();
        let worker = task.on_worker().unwrap();
        task.state = TaskState::Waiting(count);
        task.steal_target = None;
        self.tasks.insert(id, task);
        let ghost workers_before = self.workers@;
        assert(workers_before.contains_key(worker));
        let found = self.workers.remove(worker);
        let mut node = found.unwrap();
        remove_id(&mut node.tasks, id);
        self.workers.insert(worker, node);
        if count == 0 {
            self.ready.push_back(id);
        }
        let ghost outbox_before = self.outbox@;
        if tell {
            self.outbox.push(SchedulerOutput::RemoveTask { worker, task: id });
        }
        proof {
            let expected = before.requeue(id);
            assert(self.tasks@ =~= table.insert(id, task));
            assert(self.workers@ =~= workers_before.insert(worker, node));
            assert(self@.tasks =~= expected.tasks);
            assert(self@.workers =~= expected.workers);
            if tell {
                assert(output_views(self.outbox@) =~= output_views(outbox_before).push(
                    self.outbox@[outbox_before.len() as int]@,
                ));
                assert(self@ =~= before.cancel(id));
            } else {
                assert(self@ =~= expected);
            }
        }
    }

    /// Cancels each assigned task of `list`.
    fn cancel_assigned(&mut self, list: &Vec<TaskId>)
        requires
            old(self).core_wf(),
            forall|i: int| 0 <= i < list@.len() ==> old(self)@.tasks.contains_key(#[trigger] list@[i]),
        ensures
            final(self).core_wf(),
            final(self)@ == old(self)@.cancel_assigned(list@),
    {
        let ghost before = self@;
        let mut i: usize = 0;
        while i < list.len()
            invariant
                i <= list@.len(),
                self.core_wf(),
                before.core_inv(),
                forall|j: int| 0 <= j < list@.len() ==> before.tasks.contains_key(#[trigger] list@[j]),
                self@ == before.cancel_assigned(list@.take(i as int)),
            decreases list@.len() - i,
        {
            let id = list[i];
            proof {
                assert(list@.take(i + 1).drop_last() =~= list@.take(i as int));
                assert(list@.take(i + 1).last() == id);
                assert forall|j: int| 0 <= j < list@.take(i as int).len() implies before.tasks.contains_key(
                    #[trigger] list@.take(i as int)[j],
                ) by {
                    assert(list@.take(i as int)[j] == list@[j]);
                }
                before.lemma_cancel_assigned(list@.take(i as int));
                assert(before.tasks.contains_key(list@[i as int]));
            }
            let assigned = match self.tasks.get(id) {
                Some(task) => match task.state {
                    TaskState::Assigned(_) => true,
                    _ => false,
                },
                None => false,
            };
            if assigned {
                self.requeue(id, true);
            }
            i += 1;
        }
        proof {
            assert(list@.take(i as int) =~= list@);
        }
    }

    /// Tells each waiting task of `consumers` that one more of its
    /// dependencies is not finished, and takes the consumers off the ready
    /// list.
    fn unsettle(&mut self, consumers: &Vec<TaskId>)
        requires
            old(self).repr_ok(),
            consumers@.no_duplicates(),
            forall|i: int|
                0 <= i < consumers@.len() ==> {
                    &&& old(self)@.tasks.contains_key(#[trigger] consumers@[i])
                    &&& old(self)@.tasks[consumers@[i]].state matches TaskState::Waiting(n) ==> n
                        < usize::MAX
                },
        ensures
            final(self).repr_ok(),
            final(self)@ == (SchedulerView {
                tasks: old(self)@.unsettled(consumers@),
                ready: without_all(old(self)@.ready, consumers@),
                ..old(self)@
            }),
    {
        let ghost before = self@;
        proof {
            assert(self@.tasks =~= before.unsettled(consumers@.take(0)));
        }
        let mut i: usize = 0;
        while i < consumers.len()
            invariant
                i <= consumers@.len(),
                self.repr_ok(),
                consumers@.no_duplicates(),
                forall|j: int|
                    0 <= j < consumers@.len() ==> {
                        &&& before.tasks.contains_key(#[trigger] consumers@[j])
                        &&& before.tasks[consumers@[j]].state matches TaskState::Waiting(n) ==> n
                            < usize::MAX
                    },
                self@ == (SchedulerView { tasks: self@.tasks, ready: self@.ready, ..before }),
                self@.tasks == before.unsettled(consumers@.take(i as int)),
                self@.ready == without_all(before.ready, consumers@.take(i as int)),
            decreases consumers@.len() - i,
        {
            let consumer = consumers[i];
            let ghost current = self@;
            let ghost done = consumers@.take(i as int);
            proof {
                assert(before.tasks.contains_key(consumers@[i as int]));
                assert(!done.contains(consumer)) by {
                    if done.contains(consumer) {
                        let j = choose|j: int| 0 <= j < done.len() && done[j] == consumer;
                        assert(consumers@[j] == consumers@[i as int]);
                    }
                }
                assert(current.tasks.contains_key(consumer));
                assert(current.tasks[consumer] == before.tasks[consumer]);
                assert(self.tasks@.contains_key(consumer));
                assert(consumers@.take(i + 1).drop_last() =~= done);
                assert(consumers@.take(i + 1).last() == consumer);
            }
            let ghost table = self.tasks@;
            let taken = self.tasks.remove(consumer);
            let mut task = taken.unwrap();
            match task.state {
                TaskState::Waiting(count) => {
                    task.state = TaskState::Waiting(count + 1);
                },
                _ => {},
            }
            self.tasks.insert(consumer, task);
            remove_queued(&mut self.ready, consumer);
            proof {
                let next = consumers@.take(i + 1);
                assert forall|d: TaskId| next.contains(d) == (done.contains(d) || d == consumer) by {
                    if next.contains(d) {
                        let j = choose|j: int| 0 <= j < next.len() && next[j] == d;
                        if j < i {
                            assert(done[j] == d);
                        }
                    }
                    if done.contains(d) {
                        let j = choose|j: int| 0 <= j < done.len() && done[j] == d;
                        assert(next[j] == d);
                    }
                    if d == consumer {
                        assert(next[i as int] == d);
                    }
                }
                assert(self.tasks@ =~= table.insert(consumer, task));
                assert(self@.tasks =~= current.tasks.insert(consumer, task@));
                assert(self@.tasks =~= before.unsettled(next));
                assert(self@.workers =~= before.workers);
                assert(self@ =~= (SchedulerView { tasks: self@.tasks, ready: self@.ready, ..before }));
            }
            i += 1;
        }
        proof {
            assert(consumers@.take(i as int) =~= consumers@);
        }
    }

    /// Enters that `worker`, the last one to hold the result of the task
    /// `id`, has lost it.
    fn unfinish(&mut self, worker: WorkerId, id: TaskId)
        requires
            old(self).core_wf(),
            old(self)@.tasks.contains_key(id),
            old(self)@.tasks[id].locations.contains(worker),
            without(old(self)@.tasks[id].locations, worker).len() == 0,
            forall|i: int|
                0 <= i < old(self)@.tasks[id].consumers.len() ==> !(old(self)@.tasks[#[trigger] old(
                    self,
                )@.tasks[id].consumers[i]].state is Assigned),
        ensures
            final(self).core_wf(),
            final(self)@ == old(self)@.unfinish(worker, id),
    {
        let ghost before = self@;
        proof {
            before.lemma_unfinish(worker, id);
            before.lemma_task(id);
            before.lemma_consumers_of_finished(id);
            crate::idlist::lemma_count_bound(
                before.tasks[id].deps,
                |d: TaskId| before.is_unfinished(d),
            );
            let k = choose|k: int|
                0 <= k < before.tasks[id].locations.len() && before.tasks[id].locations[k] == worker;
            assert(before.workers.contains_key(before.tasks[id].locations[k]));
        }
        let (count, consumers) = match self.tasks.get(id) {
            Some(task) => (self.unfinished_deps(&task.deps), task.consumers.clone()),
            None => (0, Vec::new()),
        };
        assert(consumers@ =~= before.tasks[id].consumers);
        self.unsettle(&consumers);
        let ghost unsettled = self@;
        let ghost table = self.tasks@;
        proof {
            assert(unsettled.tasks.contains_key(id));
            assert(unsettled.tasks[id] == before.tasks[id]);
            assert(table.contains_key(id));
        }
        let taken = self.tasks.remove(id);
        let mut task = taken.unwrap();
        let waits = !task.released;
        if waits {
            task.state = TaskState::Waiting(count);
        } else {
            task.state = TaskState::Released;
        }
        task.locations = Vec::new();
        self.tasks.insert(id, task);
        let ghost workers_before = self.workers@;
        assert(workers_before.contains_key(worker));
        let found = self.workers.remove(worker);
        let mut node = found.unwrap();
        remove_id(&mut node.data, id);
        self.workers.insert(worker, node);
        if waits && count == 0 {
            self.ready.push_back(id);
        }
        proof {
            let expected = before.unfinish(worker, id);
            assert(self.tasks@ =~= table.insert(id, task));
            assert(self@.tasks =~= unsettled.tasks.insert(id, task@));
            assert(self.workers@ =~= workers_before.insert(worker, node));
            assert(self@.tasks =~= expected.tasks);
            assert(self@.workers =~= expected.workers);
            assert(self@.ready =~= expected.ready);
            assert(self@ =~= expected);
        }
    }

    /// Enters that `worker`, one of several that hold the result of the task
    /// `id`, has lost it.
    fn shrink(&mut self, worker: WorkerId, id: TaskId)
        requires
            old(self).core_wf(),
            old(self)@.tasks.contains_key(id),
            old(self)@.tasks[id].locations.contains(worker),
            without(old(self)@.tasks[id].locations, worker).len() > 0,
        ensures
            final(self).core_wf(),
            final(self)@ == old(self)@.shrink(worker, id),
    {
        let ghost before = self@;
        proof {
            before.lemma_shrink(worker, id);
            before.lemma_task(id);
            let k = choose|k: int|
                0 <= k < before.tasks[id].locations.len() && before.tasks[id].locations[k] == worker;
            assert(before.workers.contains_key(before.tasks[id].locations[k]));
        }
        let ghost table = self.tasks@;
        let taken = self.tasks.remove(id);
        let mut task = taken.unwrap();
        remove_id(&mut task.locations, worker);
        self.tasks.insert(id, task);
        let ghost workers_before = self.workers@;
        assert(workers_before.contains_key(worker));
        let found = self.workers.remove(worker);
        let mut node = found.unwrap();
        remove_id(&mut node.data, id);
        self.workers.insert(worker, node);
        proof {
            let expected = before.shrink(worker, id);
            assert(self.tasks@ =~= table.insert(id, task));
            assert(self.workers@ =~= workers_before.insert(worker, node));
            assert(self@.tasks =~= expected.tasks);
            assert(self@.workers =~= expected.workers);
            assert(self@ =~= expected);
        }
    }

    /// Enters that `worker` has lost the result of the task `id`.
    fn lose_location(&mut self, worker: WorkerId, id: TaskId)
        requires
            old(self).core_wf(),
            old(self)@.tasks.contains_key(id),
            old(self)@.tasks[id].locations.contains(worker),
        ensures
            final(self).core_wf(),
            final(self)@ == old(self)@.lose_location(worker, id),
    {
        let ghost before = self@;
        proof {
            before.lemma_task(id);
            crate::idlist::lemma_without(before.tasks[id].locations, worker);
        }
        let (last, consumers) = match self.tasks.get(id) {
            Some(task) => (task.locations.len() == 1, task.consumers.clone()),
            None => (false, Vec::new()),
        };
        assert(consumers@ =~= before.tasks[id].consumers);
        if last {
            proof {
                before.lemma_cancel_assigned(consumers@);
            }
            self.cancel_assigned(&consumers);
            assert(self@.tasks[id] == before.tasks[id]);
            self.unfinish(worker, id);
        } else {
            self.shrink(worker, id);
        }
    }

    /// Takes each task of `list` back from its worker.
    fn requeue_each(&mut self, list: &Vec<TaskId>)
        requires
            old(self).core_wf(),
            list@.no_duplicates(),
            forall|i: int|
                0 <= i < list@.len() ==> old(self)@.tasks.contains_key(#[trigger] list@[i]) && old(
                    self,
                )@.tasks[list@[i]].on_worker() is Some,
        ensures
            final(self).core_wf(),
            final(self)@ == old(self)@.requeue_each(list@),
    {
        let ghost before = self@;
        let mut i: usize = 0;
        while i < list.len()
            invariant
                i <= list@.len(),
                self.core_wf(),
                before.core_inv(),
                list@.no_duplicates(),
                forall|j: int|
                    0 <= j < list@.len() ==> before.tasks.contains_key(#[trigger] list@[j])
                        && before.tasks[list@[j]].on_worker() is Some,
                self@ == before.requeue_each(list@.take(i as int)),
            decreases list@.len() - i,
        {
            let id = list[i];
            proof {
                let done = list@.take(i as int);
                assert(list@.take(i + 1).drop_last() =~= done);
                assert(list@.take(i + 1).last() == id);
                assert forall|j: int| 0 <= j < done.len() implies before.tasks.contains_key(
                    #[trigger] done[j],
                ) && before.tasks[done[j]].on_worker() is Some by {
                    assert(done[j] == list@[j]);
                }
                before.lemma_requeue_each(done);
                assert(!done.contains(id)) by {
                    if done.contains(id) {
                        let j = choose|j: int| 0 <= j < done.len() && done[j] == id;
                        assert(list@[j] == list@[i as int]);
                    }
                }
                assert(before.tasks.contains_key(list@[i as int]));
            }
            self.requeue(id, false);
            i += 1;
        }
        proof {
            assert(list@.take(i as int) =~= list@);
        }
    }

    /// Enters that `worker` has lost each result of `list`.
    fn lose_data(&mut self, worker: WorkerId, list: &Vec<TaskId>)
        requires
            old(self).core_wf(),
            list@.no_duplicates(),
            forall|i: int|
                0 <= i < list@.len() ==> old(self)@.tasks.contains_key(#[trigger] list@[i]) && old(
                    self,
                )@.tasks[list@[i]].locations.contains(worker),
        ensures
            final(self).core_wf(),
            final(self)@ == old(self)@.lose_data(worker, list@),
    {
        let ghost before = self@;
        let mut i: usize = 0;
        while i < list.len()
            invariant
                i <= list@.len(),
                self.core_wf(),
                before.core_inv(),
                list@.no_duplicates(),
                forall|j: int|
                    0 <= j < list@.len() ==> before.tasks.contains_key(#[trigger] list@[j])
                        && before.tasks[list@[j]].locations.contains(worker),
                self@ == before.lose_data(worker, list@.take(i as int)),
            decreases list@.len() - i,
        {
            let id = list[i];
            proof {
                let done = list@.take(i as int);
                assert(list@.take(i + 1).drop_last() =~= done);
                assert(list@.take(i + 1).last() == id);
                assert forall|j: int| 0 <= j < done.len() implies before.tasks.contains_key(
                    #[trigger] done[j],
                ) && before.tasks[done[j]].locations.contains(worker) by {
                    assert(done[j] == list@[j]);
                }
                before.lemma_lose_data(worker, done);
                assert(!done.contains(id)) by {
                    if done.contains(id) {
                        let j = choose|j: int| 0 <= j < done.len() && done[j] == id;
                        assert(list@[j] == list@[i as int]);
                    }
                }
                assert(before.tasks.contains_key(list@[i as int]));
            }
            self.lose_location(worker, id);
            i += 1;
        }
        proof {
            assert(list@.take(i as int) =~= list@);
        }
    }

    /// Enters that each worker of `list` has lost the result of the task
    /// `id`.
    fn lose_each(&mut self, id: TaskId, list: &Vec<WorkerId>)
        requires
            old(self).core_wf(),
            old(self)@.tasks.contains_key(id),
            list@.no_duplicates(),
            forall|i: int|
                0 <= i < list@.len() ==> old(self)@.tasks[id].locations.contains(#[trigger] list@[i]),
        ensures
            final(self).core_wf(),
            final(self)@ == old(self)@.lose_each(id, list@),
    {
        let ghost before = self@;
        let mut i: usize = 0;
        while i < list.len()
            invariant
                i <= list@.len(),
                self.core_wf(),
                before.core_inv(),
                before.tasks.contains_key(id),
                list@.no_duplicates(),
                forall|j: int|
                    0 <= j < list@.len() ==> before.tasks[id].locations.contains(#[trigger] list@[j]),
                self@ == before.lose_each(id, list@.take(i as int)),
            decreases list@.len() - i,
        {
            let worker = list[i];
            proof {
                let done = list@.take(i as int);
                assert(list@.take(i + 1).drop_last() =~= done);
                assert(list@.take(i + 1).last() == worker);
                assert forall|j: int| 0 <= j < done.len() implies before.tasks[id].locations.contains(
                    #[trigger] done[j],
                ) by {
                    assert(done[j] == list@[j]);
                }
                before.lemma_lose_each(id, done);
                assert(!done.contains(worker)) by {
                    if done.contains(worker) {
                        let j = choose|j: int| 0 <= j < done.len() && done[j] == worker;
                        assert(list@[j] == list@[i as int]);
                    }
                }
                crate::scheduler::recovery::lemma_without_all(before.tasks[id].locations, done);
                assert(before.tasks[id].locations.contains(list@[i as int]));
            }
            self.lose_location(worker, id);
            i += 1;
        }
        proof {
            assert(list@.take(i as int) =~= list@);
        }
    }

    /// Takes in that `worker` has dropped the result of the task `id`. While
    /// another worker holds the result, only the location goes. With the
    /// last location the task stops being finished: it will run again,
    /// unless the client has released it, and the tasks that read it wait
    /// for it again. A report about a result that the worker does not hold
    /// changes nothing.
    pub fn data_removed(&mut self, worker: WorkerId, id: TaskId)
        requires
            old(self).wf(),
        ensures
            final(self).wf(),
            final(self)@ == old(self)@.data_removed(worker, id),
    {
        let holds = match self.tasks.get(id) {
            Some(task) => contains_id(&task.locations, worker),
            None => false,
        };
        if !holds {
            return ;
        }
        let mut work = match self.tasks.get(id) {
            Some(task) => task.consumers.clone(),
            None => Vec::new(),
        };
        work.push(id);
        assert(work@ =~= old(self)@.tasks[id].consumers.push(id));
        self.lose_location(worker, id);
        self.collect(work);
        self.place_ready();
    }

    /// Takes in that `worker` has fetched the result of the task `id` and
    /// holds it too. A report about a task that is not finished, from a
    /// worker that is not known or already listed, changes nothing.
    pub fn data_downloaded(&mut self, worker: WorkerId, id: TaskId)
        requires
            old(self).wf(),
        ensures
            final(self).wf(),
            final(self)@ == old(self)@.data_downloaded(worker, id),
    {
        let ghost before = self@;
        proof {
            before.lemma_data_downloaded(worker, id);
        }
        let applies = match self.tasks.get(id) {
            Some(task) => task.is_finished() && !contains_id(&task.locations, worker),
            None => false,
        };
        if !applies || !self.workers.contains(worker) {
            return ;
        }
        let ghost table = self.tasks@;
        let taken = self.tasks.remove(id);
        let mut task = taken.unwrap();
        task.locations.push(worker);
        self.tasks.insert(id, task);
        let ghost workers_before = self.workers@;
        let found = self.workers.remove(worker);
        let mut node = found.unwrap();
        node.data.push(id);
        self.workers.insert(worker, node);
        proof {
            let expected = before.data_downloaded(worker, id);
            assert(self.tasks@ =~= table.insert(id, task));
            assert(self.workers@ =~= workers_before.insert(worker, node));
            assert(self@.tasks =~= expected.tasks);
            assert(self@.workers =~= expected.workers);
            assert(self@ =~= expected);
        }
    }

    /// Takes in that no worker named as a holder of the result of the task
    /// `id` has it. The result counts as lost everywhere: the task will run
    /// again, unless the client has released it, and the tasks that read it
    /// wait for it again; those that were assigned are cancelled. For a task
    /// that is not finished nothing changes.
    pub fn data_unavailable(&mut self, id: TaskId)
        requires
            old(self).wf(),
        ensures
            final(self).wf(),
            final(self)@ == old(self)@.data_unavailable(id),
    {
        let finished = match self.tasks.get(id) {
            Some(task) => task.is_finished(),
            None => false,
        };
        if !finished {
            return ;
        }
        proof {
            old(self)@.lemma_task(id);
        }
        let (locations, mut work) = match self.tasks.get(id) {
            Some(task) => (task.locations.clone(), task.consumers.clone()),
            None => (Vec::new(), Vec::new()),
        };
        work.push(id);
        assert(work@ =~= old(self)@.tasks[id].consumers.push(id));
        assert(locations@ =~= old(self)@.tasks[id].locations);
        self.lose_each(id, &locations);
        self.collect(work);
        self.place_ready();
    }

    /// Takes in that the worker `worker` is gone. Its tasks wait again for
    /// their unfinished dependencies; the results it held are lost; tasks
    /// that wait for nothing are placed on the workers that are left. For a
    /// worker that is not known nothing changes.
    pub fn worker_lost(&mut self, worker: WorkerId)
        requires
            old(self).wf(),
        ensures
            final(self).wf(),
            final(self)@ == old(self)@.worker_lost(worker),
    {
        let ghost before = self@;
        if !self.workers.contains(worker) {
            return ;
        }
        proof {
            before.lemma_worker_gone(worker);
        }
        let (tasks, data) = match self.workers.get(worker) {
            Some(node) => (node.tasks.clone(), node.data.clone()),
            None => (Vec::new(), Vec::new()),
        };
        assert(tasks@ =~= before.workers[worker].tasks);
        assert(data@ =~= before.workers[worker].data);
        self.requeue_each(&tasks);
        proof {
            let requeued = self@;
            before.lemma_requeue_each(tasks@);
            assert forall|i: int| 0 <= i < data@.len() implies requeued.tasks.contains_key(
                #[trigger] data@[i],
            ) && requeued.tasks[data@[i]].locations.contains(worker) by {
                assert(before.tasks.contains_key(data@[i]));
                assert(requeued.settled_like(before, data@[i]));
            }
        }
        self.lose_data(worker, &data);
        let ghost lost = self@;
        let ghost table = self.workers@;
        self.workers.remove(worker);
        remove_id(&mut self.worker_order, worker);
        proof {
            assert(self.workers@ =~= table.remove(worker));
            assert(self@.workers =~= lost.workers.remove(worker));
            assert(self@.tasks =~= lost.tasks);
            assert(self@ =~= lost.without_worker(worker));
        }
        self.collect(tasks);
        self.place_ready();
    }

    /// The sum of the loads of all workers.
    fn total_load(&self) -> (total: u128)
        requires
            self.core_wf(),
        ensures
            total == self@.total_load(self@.worker_order),
            total <= self@.worker_order.len() * 0xffff_ffff_ffff_ffff,
    {
        let mut total: u128 = 0;
        let mut i: usize = 0;
        while i < self.worker_order.len()
            invariant
                i <= self.worker_order@.len(),
                self.core_wf(),
                total == self@.total_load(self@.worker_order.take(i as int)),
                total <= i * 0xffff_ffff_ffff_ffff,
            decreases self.worker_order@.len() - i,
        {
            let worker = self.worker_order[i];
            proof {
                assert(self@.worker_order.take(i + 1).drop_last() =~= self@.worker_order.take(i as int));
                assert(self@.worker_order.take(i + 1).last() == worker);
                self@.lemma_order();
            }
            let load = match self.workers.get(worker) {
                Some(node) => node.tasks.len(),
                None => 0,
            };
            assert((i + 1) * 0xffff_ffff_ffff_ffff == i * 0xffff_ffff_ffff_ffff + 0xffff_ffff_ffff_ffff)
                by (nonlinear_arith);
            assert(i * 0xffff_ffff_ffff_ffff <= 0xffff_ffff_ffff_ffff * 0xffff_ffff_ffff_ffff)
                by (nonlinear_arith)
                requires
                    i <= 0xffff_ffff_ffff_ffff,
            ;
            total = total + load as u128;
            i += 1;
        }
        proof {
            assert(self@.worker_order.take(i as int) =~= self@.worker_order);
        }
        total
    }

    /// Tells whether the load of `worker` is more than one above the
    /// average.
    fn overloaded(&self, worker: WorkerId, total: u128) -> (over: bool)
        requires
            self.core_wf(),
            self@.workers.contains_key(worker),
            total == self@.total_load(self@.worker_order),
            total <= self@.worker_order.len() * 0xffff_ffff_ffff_ffff,
        ensures
            over == self@.overloaded(worker),
    {
        let load = match self.workers.get(worker) {
            Some(node) => node.tasks.len(),
            None => 0,
        };
        let count = self.worker_order.len();
        assert((load as u128) * (count as u128) <= 0xffff_ffff_ffff_ffff * 0xffff_ffff_ffff_ffff)
            by (nonlinear_arith)
            requires
                load <= 0xffff_ffff_ffff_ffff,
                count <= 0xffff_ffff_ffff_ffff,
        ;
        assert(count * 0xffff_ffff_ffff_ffff <= 0xffff_ffff_ffff_ffff * 0xffff_ffff_ffff_ffff)
            by (nonlinear_arith)
            requires
                count <= 0xffff_ffff_ffff_ffff,
        ;
        (load as u128) * (count as u128) > total + count as u128
    }

    /// The worker to which the task `id` should go from `worker`, if it
    /// should go.
    fn better_place(&self, worker: WorkerId, id: TaskId) -> (target: Option<WorkerId>)
        requires
            self.core_wf(),
            self@.workers.contains_key(worker),
            self@.tasks.contains_key(id),
        ensures
            target == self@.better_place(worker, id),
    {
        proof {
            self@.lemma_task(id);
            self@.lemma_order();
        }
        match self.tasks.get(id) {
            Some(task) => {
                let assigned = match task.state {
                    TaskState::Assigned(_) => true,
                    _ => false,
                };
                let best = self.pick_cheapest(&task.deps);
                proof {
                    let chosen = choose|target: WorkerId| self@.is_cheapest(target, task.deps@);
                    self@.lemma_cheapest_unique(best, chosen, task.deps@);
                }
                if !assigned || task.steal_target.is_some() || best == worker {
                    return None;
                }
                let there = self.cost(best, &task.deps);
                let here = self.cost(worker, &task.deps);
                if there <= here && here - there > self.epsilon as u128 {
                    Some(best)
                } else {
                    None
                }
            },
            None => None,
        }
    }

    /// The steals from `worker` among its tasks.
    fn plan_for(&self, worker: WorkerId, plan: &mut Vec<StealCommand>)
        requires
            self.core_wf(),
            self@.workers.contains_key(worker),
        ensures
            final(plan)@ == old(plan)@ + self@.plan_for(worker, self@.workers[worker].tasks),
    {
        proof {
            self@.lemma_worker(worker);
        }
        match self.workers.get(worker) {
            Some(node) => {
                let ghost start = plan@;
                assert(plan@ =~= start + self@.plan_for(worker, node.tasks@.take(0)));
                let mut i: usize = 0;
                while i < node.tasks.len()
                    invariant
                        i <= node.tasks@.len(),
                        self.core_wf(),
                        self@.workers.contains_key(worker),
                        node@ == self@.workers[worker],
                        self@.worker_ok(worker),
                        plan@ == start + self@.plan_for(worker, node.tasks@.take(i as int)),
                    decreases node.tasks@.len() - i,
                {
                    let id = node.tasks[i];
                    proof {
                        assert(node.tasks@.take(i + 1).drop_last() =~= node.tasks@.take(i as int));
                        assert(node.tasks@.take(i + 1).last() == id);
                        assert(self@.tasks.contains_key(self@.workers[worker].tasks[i as int]));
                    }
                    match self.better_place(worker, id) {
                        Some(target) => {
                            plan.push(StealCommand { from: worker, task: id, target });
                            assert(plan@ =~= start + self@.plan_for(worker, node.tasks@.take(i + 1)));
                        },
                        None => {},
                    }
                    i += 1;
                }
                proof {
                    assert(node.tasks@.take(i as int) =~= node.tasks@);
                }
            },
            None => {},
        }
    }

    /// The steals that would rebalance the workers now. By the
    /// work-stealing policy, each worker whose load is more than one above
    /// the average gives up those of its assigned tasks, without a steal in
    /// flight, for which another worker is the cheapest and cheaper by more
    /// than the margin. The random policy does not rebalance. Nothing is
    /// changed.
    pub fn rebalance(&self) -> (plan: Vec<StealCommand>)
        requires
            self.core_wf(),
        ensures
            plan@ == self@.rebalance(),
    {
        let mut plan: Vec<StealCommand> = Vec::new();
        match self.kind {
            SchedulerType::Random => {
                assert(plan@ =~= self@.rebalance());
            },
            SchedulerType::Workstealing => {
                let total = self.total_load();
                assert(plan@ =~= self@.plan_over(self@.worker_order.take(0)));
                let mut i: usize = 0;
                while i < self.worker_order.len()
                    invariant
                        i <= self.worker_order@.len(),
                        self.core_wf(),
                        total == self@.total_load(self@.worker_order),
                        total <= self@.worker_order.len() * 0xffff_ffff_ffff_ffff,
                        plan@ == self@.plan_over(self@.worker_order.take(i as int)),
                    decreases self.worker_order@.len() - i,
                {
                    let worker = self.worker_order[i];
                    proof {
                        assert(self@.worker_order.take(i + 1).drop_last() =~= self@.worker_order.take(
                            i as int,
                        ));
                        assert(self@.worker_order.take(i + 1).last() == worker);
                        self@.lemma_order();
                    }
                    if self.overloaded(worker, total) {
                        self.plan_for(worker, &mut plan);
                    }
                    i += 1;
                }
                proof {
                    assert(self@.worker_order.take(i as int) =~= self@.worker_order);
                }
            },
        }
        plan
    }

    /// Starts the steals of `plan`.
    fn start_steals(&mut self, plan: &Vec<StealCommand>)
        requires
            old(self).core_wf(),
            forall|i: int|
                0 <= i < plan@.len() ==> {
                    &&& old(self)@.tasks.contains_key((#[trigger] plan@[i]).task)
                    &&& old(self)@.tasks[plan@[i].task].state is Assigned
                },
        ensures
            final(self).core_wf(),
            final(self)@ == old(self)@.start_steals(plan@),
    {
        let ghost before = self@;
        let mut i: usize = 0;
        while i < plan.len()
            invariant
                i <= plan@.len(),
                self.repr_ok(),
                before.core_inv(),
                forall|j: int|
                    0 <= j < plan@.len() ==> {
                        &&& before.tasks.contains_key((#[trigger] plan@[j]).task)
                        &&& before.tasks[plan@[j].task].state is Assigned
                    },
                self@ == before.start_steals(plan@.take(i as int)),
            decreases plan@.len() - i,
        {
            let command = plan[i];
            let ghost current = self@;
            proof {
                let done = plan@.take(i as int);
                assert(plan@.take(i + 1).drop_last() =~= done);
                assert(plan@.take(i + 1).last() == command);
                assert forall|j: int| 0 <= j < done.len() implies {
                    &&& before.tasks.contains_key((#[trigger] done[j]).task)
                    &&& before.tasks[done[j].task].state is Assigned
                } by {
                    assert(done[j] == plan@[j]);
                }
                before.lemma_start_steals(done);
                assert(before.tasks.contains_key(plan@[i as int].task));
                assert(current.tasks.contains_key(command.task));
                assert(self.tasks@.contains_key(command.task));
            }
            let ghost table = self.tasks@;
            let ghost outbox_before = self.outbox@;
            let taken = self.tasks.remove(command.task);
            let mut task = taken.unwrap();
            task.steal_target = Some(command.target);
            self.tasks.insert(command.task, task);
            self.outbox.push(SchedulerOutput::Steal { worker: command.from, task: command.task });
            proof {
                let expected = current.start_steal(command);
                assert(self.tasks@ =~= table.insert(command.task, task));
                assert(self@.tasks =~= expected.tasks);
                assert(self@.workers =~= expected.workers);
                assert(output_views(self.outbox@) =~= output_views(outbox_before).push(
                    self.outbox@[outbox_before.len() as int]@,
                ));
                assert(self@ =~= expected);
            }
            i += 1;
        }
        proof {
            assert(plan@.take(i as int) =~= plan@);
            before.lemma_start_steals(plan@);
        }
    }

    /// Takes in that time has passed: the steals that rebalance the workers
    /// are started. For each of them the worker is asked to give the task
    /// up, and the steal is in flight until the worker answers.
    pub fn tick(&mut self)
        requires
            old(self).wf(),
        ensures
            final(self).wf(),
            final(self)@ == old(self)@.tick(),
    {
        let ghost before = self@;
        let plan = self.rebalance();
        proof {
            before.lemma_tick();
            match before.kind {
                SchedulerType::Workstealing => {
                    before.lemma_order();
                    before.lemma_plan_over(before.worker_order);
                },
                SchedulerType::Random => {},
            }
            before.lemma_start_steals(plan@);
        }
        self.start_steals(&plan);
    }

    /// Sends the ready task `id` to `worker`.
    fn assign_ready(&mut self, id: TaskId, worker: WorkerId)
        requires
            old(self).core_wf(),
            old(self)@.ready.contains(id),
            old(self)@.workers.contains_key(worker),
        ensures
            final(self).core_wf(),
            final(self)@ == old(self)@.assign_ready(id, worker),
    {
        let ghost before = self@;
        proof {
            before.lemma_assign_ready(id, worker);
            let k = choose|k: int| 0 <= k < before.ready.len() && before.ready[k] == id;
            before.lemma_ready(k);
        }
        let deps = match self.tasks.get(id) {
            Some(task) => self.dependency_info(&task.deps),
            None => Vec::new(),
        };
        remove_queued(&mut self.ready, id);
        let ghost tasks_before = self.tasks@;
        let taken = self.tasks.remove(id);
        let mut task = taken.unwrap();
        task.state = TaskState::Assigned(worker);
        task.steal_target = None;
        let priority = task.priority;
        self.tasks.insert(id, task);
        let ghost workers_before = self.workers@;
        let found = self.workers.remove(worker);
        let mut node = found.unwrap();
        node.tasks.push(id);
        self.workers.insert(worker, node);
        let ghost outbox_before = self.outbox@;
        self.outbox.push(SchedulerOutput::Assign { worker, task: id, priority, deps });
        proof {
            let expected = before.assign_ready(id, worker);
            assert(self.tasks@ =~= tasks_before.insert(id, task));
            assert(self.workers@ =~= workers_before.insert(worker, node));
            assert(self@.tasks =~= expected.tasks);
            assert(self@.workers =~= expected.workers);
            assert(output_views(self.outbox@) =~= output_views(outbox_before).push(
                self.outbox@[outbox_before.len() as int]@,
            ));
            assert(self@.outbox =~= expected.outbox);
            assert(self@ =~= expected);
        }
    }

    /// Changes the state of the assigned task `id` and ends the steal in
    /// flight for it.
    fn settle_steal(&mut self, id: TaskId, running: bool)
        requires
            old(self).wf(),
            old(self)@.tasks.contains_key(id),
            old(self)@.tasks[id].state is Assigned,
        ensures
            final(self).wf(),
            final(self)@ == if running {
                old(self)@.now_running(id)
            } else {
                old(self)@.end_steal(id)
            },
    {
        let ghost before = self@;
        let ghost table = self.tasks@;
        let taken = self.tasks.remove(id);
        let mut task = taken.unwrap();
        if running {
            match task.state {
                TaskState::Assigned(worker) => {
                    task.state = TaskState::Running(worker);
                },
                _ => {},
            }
        }
        task.steal_target = None;
        self.tasks.insert(id, task);
        proof {
            let expected = if running {
                before.now_running(id)
            } else {
                before.end_steal(id)
            };
            assert(self.tasks@ =~= table.insert(id, task));
            assert(self@.tasks =~= expected.tasks);
            assert(self@.workers =~= expected.workers);
            assert(self@ =~= expected);
            before.lemma_retarget(id, expected.tasks[id], expected);
        }
    }

    /// Takes in the answer of `worker` to a steal of the task `id`. A task
    /// that the worker has given up goes to the target of the steal, or is
    /// placed anew if that worker is gone. A task that runs is known to run
    /// from now on and stays where it is. A task that the worker does not
    /// have stays as it is. In each case the steal is no longer in flight.
    /// An answer changes nothing unless the task is assigned to that worker
    /// and a steal is in flight for it.
    pub fn task_steal_response(&mut self, worker: WorkerId, id: TaskId, response: StealResponse)
        requires
            old(self).wf(),
        ensures
            final(self).wf(),
            final(self)@ == old(self)@.task_steal_response(worker, id, response),
    {
        let ghost before = self@;
        let target = match self.tasks.get(id) {
            Some(task) => match task.state {
                TaskState::Assigned(on) => if on == worker {
                    task.steal_target
                } else {
                    None
                },
                _ => None,
            },
            None => None,
        };
        match target {
            None => {},
            Some(target) => {
                proof {
                    before.lemma_stolen(id);
                }
                match response {
                    StealResponse::Success => {
                        self.requeue(id, false);
                        if self.workers.contains(target) {
                            self.assign_ready(id, target);
                        }
                        self.place_ready();
                    },
                    StealResponse::Running => {
                        self.settle_steal(id, true);
                    },
                    StealResponse::NotHere => {
                        self.settle_steal(id, false);
                    },
                }
            },
        }
    }

    /// Marks the task `id`, which had still to be done, as failed; with
    /// `tell` the worker it was on is asked to drop it.
    fn mark_erred(&mut self, id: TaskId, tell: bool)
        requires
            old(self).core_wf(),
            old(self)@.tasks.contains_key(id),
            old(self)@.tasks[id].unfinished(),
        ensures
            final(self).core_wf(),
            final(self)@ == if tell {
                old(self)@.fail(id)
            } else {
                old(self)@.mark_erred(id)
            },
    {
        let ghost before = self@;
        proof {
            before.lemma_fail(id);
            before.lemma_task(id);
        }
        let ghost table = self.tasks@;
        let taken = self.tasks.remove(id);
        let mut task = taken.unwrap();
        let on_worker = task.on_worker();
        task.state = TaskState::Erred;
        task.steal_target = None;
        self.tasks.insert(id, task);
        remove_queued(&mut self.ready, id);
        let ghost workers_before = self.workers@;
        let ghost outbox_before = self.outbox@;
        match on_worker {
            Some(worker) => {
                assert(workers_before.contains_key(worker));
                let found = self.workers.remove(worker);
                let mut node = found.unwrap();
                remove_id(&mut node.tasks, id);
                self.workers.insert(worker, node);
                assert(self.workers@ =~= workers_before.insert(worker, node));
                if tell {
                    self.outbox.push(SchedulerOutput::RemoveTask { worker, task: id });
                    assert(output_views(self.outbox@) =~= output_views(outbox_before).push(
                        self.outbox@[outbox_before.len() as int]@,
                    ));
                }
            },
            None => {},
        }
        proof {
            let expected = before.mark_erred(id);
            assert(self.tasks@ =~= table.insert(id, task));
            assert(self@.tasks =~= expected.tasks);
            assert(self@.workers =~= expected.workers);
            if tell {
                assert(self@ =~= before.fail(id));
            } else {
                assert(self@ =~= expected);
            }
        }
    }

    /// Spreads a failure from the tasks of `work`, last first.
    fn fail_all(&mut self, work: Vec<TaskId>)
        requires
            old(self).core_wf(),
        ensures
            final(self).core_wf(),
            final(self)@ == old(self)@.fail_all(work@),
    {
        let mut queue = work;
        proof {
            reveal(SchedulerView::core_inv);
        }
        loop
            invariant
                self.core_wf(),
                self@.tasks.dom().finite(),
                self@.fail_all(queue@) == old(self)@.fail_all(work@),
            decreases self@.unfinished_set().len(), queue@.len(),
        {
            let ghost current = self@;
            let ghost pending = queue@;
            let next = queue.pop();
            match next {
                None => {
                    return ;
                },
                Some(id) => {
                    assert(queue@ == pending.drop_last());
                    assert(id == pending.last());
                    let consumers = match self.tasks.get(id) {
                        Some(task) => if task.unfinished() {
                            Some(task.consumers.clone())
                        } else {
                            None
                        },
                        None => None,
                    };
                    match consumers {
                        Some(mut consumers) => {
                            assert(consumers@ =~= current.tasks[id].consumers);
                            proof {
                                current.lemma_fail(id);
                                assert(current.unfinished_set().subset_of(current.tasks.dom()));
                                vstd::set_lib::lemma_len_subset(
                                    current.unfinished_set(),
                                    current.tasks.dom(),
                                );
                                assert(current.fail(id).unfinished_set()
                                    =~= current.unfinished_set().remove(id));
                            }
                            self.mark_erred(id, true);
                            queue.append(&mut consumers);
                            proof {
                                reveal(SchedulerView::core_inv);
                            }
                        },
                        None => {},
                    }
                },
            }
        }
    }

    /// Takes in the report of `worker` that the task `id` has failed. The
    /// task will not run again, and neither will any task that reads its
    /// result, directly or through other tasks, and has still to be done;
    /// those that are on a worker are cancelled. A report about a task that
    /// is not on the worker changes nothing.
    pub fn task_erred(&mut self, worker: WorkerId, id: TaskId)
        requires
            old(self).wf(),
        ensures
            final(self).wf(),
            final(self)@ == old(self)@.task_erred(worker, id),
    {
        let on_worker = match self.tasks.get(id) {
            Some(task) => match task.on_worker() {
                Some(on) => on == worker,
                None => false,
            },
            None => false,
        };
        if !on_worker {
            return ;
        }
        let consumers = match self.tasks.get(id) {
            Some(task) => task.consumers.clone(),
            None => Vec::new(),
        };
        assert(consumers@ =~= old(self)@.tasks[id].consumers);
        self.mark_erred(id, false);
        self.fail_all(consumers);
        let mut work: Vec<TaskId> = Vec::new();
        work.push(id);
        assert(work@ =~= Seq::empty().push(id));
        self.collect(work);
        self.place_ready();
    }

    /// Reacts to an event.
    pub fn handle_event(&mut self, event: SchedulerEvent)
        requires
            old(self).wf(),
        ensures
            final(self).wf(),
            final(self)@ == old(self)@.step(event@),
    {
        match event {
            SchedulerEvent::TaskSubmit { id, deps, priority, size } => {
                self.task_submit(id, deps, priority, size);
            },
            SchedulerEvent::TaskFinished { worker, id, size } => {
                self.task_finished(worker, id, size);
            },
            SchedulerEvent::TaskErred { worker, id } => {
                self.task_erred(worker, id);
            },
            SchedulerEvent::TaskStealResponse { worker, id, response } => {
                self.task_steal_response(worker, id, response);
            },
            SchedulerEvent::DataRemoved { worker, id } => {
                self.data_removed(worker, id);
            },
            SchedulerEvent::DataDownloaded { worker, id } => {
                self.data_downloaded(worker, id);
            },
            SchedulerEvent::DataUnavailable { id } => {
                self.data_unavailable(id);
            },
            SchedulerEvent::WorkerAdded { id, address, ncpus } => {
                self.worker_added(id, address, ncpus);
            },
            SchedulerEvent::WorkerLost { id } => {
                self.worker_lost(id);
            },
            SchedulerEvent::ClientRelease { id } => {
                self.client_release(id);
            },
            SchedulerEvent::Tick => {
                self.tick();
            },
        }
    }

    /// Empties the outbox and returns the outputs that were in it, in the
    /// order in which they were decided.
    pub fn take_outputs(&mut self) -> (outputs: Vec<SchedulerOutput>)
        requires
            old(self).wf(),
        ensures
            final(self).wf(),
            output_views(outputs@) == old(self)@.outbox,
            final(self)@ == old(self)@.without_outputs(),
    {
        let ghost before = self@;
        let mut outputs: Vec<SchedulerOutput> = Vec::new();
        std::mem::swap(&mut outputs, &mut self.outbox);
        proof {
            assert(self@.tasks =~= before.tasks);
            assert(self@.workers =~= before.workers);
            assert(output_views(self.outbox@) =~= Seq::empty());
            assert(self@ =~= before.without_outputs());
            before.lemma_without_outputs();
        }
        outputs
    }

    /// The task `id`, if the scheduler knows it.
    pub fn task(&self, id: TaskId) -> (task: Option<&Task>)
        requires
            self.wf(),
        ensures
            match task {
                Some(found) => self@.tasks.contains_key(id) && found@ == self@.tasks[id],
                None => !self@.tasks.contains_key(id),
            },
    {
        self.tasks.get(id)
    }

    /// The worker `id`, if the scheduler knows it.
    pub fn worker(&self, id: WorkerId) -> (worker: Option<&Worker>)
        requires
            self.wf(),
        ensures
            match worker {
                Some(found) => self@.workers.contains_key(id) && found@ == self@.workers[id],
                None => !self@.workers.contains_key(id),
            },
    {
        self.workers.get(id)
    }

    /// The number of workers.
    pub fn worker_count(&self) -> (count: usize)
        ensures
            count == self@.worker_order.len(),
    {
        self.worker_order.len()
    }

    /// The number of tasks that wait for nothing and are not placed.
    pub fn ready_count(&self) -> (count: usize)
        ensures
            count == self@.ready.len(),
    {
        self.ready.len()
    }
}

/// Makes the scheduler that places tasks by the policy `kind`, with the
/// default weights and margin. The random policy draws from `seed`; the
/// caller brings it from a source of chance. The scheduler has no tasks and
/// no workers yet.
pub fn create_scheduler(kind: SchedulerType, seed: u64) -> (scheduler: Scheduler)
    ensures
        scheduler.wf(),
        scheduler@ == empty_scheduler(kind, DEFAULT_ALPHA, DEFAULT_BETA, DEFAULT_EPSILON, seed),
{
    Scheduler::new(kind, DEFAULT_ALPHA, DEFAULT_BETA, DEFAULT_EPSILON, seed)
}

} // verus!
