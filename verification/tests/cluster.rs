use rsds::common::SerializationType;
use rsds::scheduler::graph::{create_scheduler, Scheduler};
use rsds::scheduler::kind::SchedulerType;
use rsds::scheduler::messages::SchedulerOutput;
use rsds::scheduler::task::TaskState;
use rsds::table::IdTable;
use rsds::transfer::fetch::{fetch_data, FetchAction, FetchError, FetchEvent, FetchState};
use rsds::transfer::messages::{DataResponse, FetchResponseData};
use rsds::transfer::plan::{FetchPlan, FetchStep};
use rsds::worker::data::DataObjectState;
use rsds::worker::messages::{FromWorkerMessage, WorkerAction};
use rsds::worker::state::WorkerState;
use rsds::worker::subworker::Subworker;

/// A scheduler and workers in one process; messages are handed over by
/// calls.
struct Cluster {
    scheduler: Scheduler,
    workers: Vec<(u64, WorkerState)>,
    /// (worker, task) of every assignment, in order
    assigned: Vec<(u64, u64)>,
    /// (worker, subworker, task) of every start, in order
    started: Vec<(u64, u64, u64)>,
    /// tasks reported as finished to the scheduler, in order
    finished: Vec<u64>,
    /// (worker, data object) of downloads asked for and not served yet
    downloads: Vec<(u64, u64)>,
    /// (from, to, data object) of every transfer between workers
    transfers: Vec<(u64, u64, u64)>,
    /// data objects reported as unavailable
    unavailable: Vec<u64>,
    /// (worker, task) of every steal request
    steals: Vec<(u64, u64)>,
}

impl Cluster {
    fn new() -> Cluster {
        Cluster {
            scheduler: create_scheduler(SchedulerType::Workstealing, 0),
            workers: Vec::new(),
            assigned: Vec::new(),
            started: Vec::new(),
            finished: Vec::new(),
            downloads: Vec::new(),
            transfers: Vec::new(),
            unavailable: Vec::new(),
            steals: Vec::new(),
        }
    }

    fn add_worker(&mut self, id: u64, ncpus: u32) {
        let mut state = WorkerState::new(id, ncpus, format!("w{}", id), IdTable::new());
        state.set_subworkers((0..ncpus as u64).map(Subworker::new).collect());
        self.workers.push((id, state));
        self.scheduler.worker_added(id, format!("w{}", id), ncpus);
        self.pump();
    }

    fn lose_worker(&mut self, id: u64) {
        self.workers.retain(|(worker, _)| *worker != id);
        self.downloads.retain(|(worker, _)| *worker != id);
        self.scheduler.worker_lost(id);
        self.pump();
    }

    fn worker(&mut self, id: u64) -> &mut WorkerState {
        &mut self
            .workers
            .iter_mut()
            .find(|(worker, _)| *worker == id)
            .expect("the worker is connected")
            .1
    }

    fn submit(&mut self, id: u64, deps: Vec<u64>, priority: i32) {
        self.scheduler.task_submit(id, deps, priority, None);
        self.pump();
    }

    fn release(&mut self, ids: &[u64]) {
        for id in ids {
            self.scheduler.client_release(*id);
        }
        self.pump();
    }

    fn tick(&mut self) {
        self.scheduler.tick();
        self.pump();
    }

    /// Hands messages over until nothing is left to hand over.
    fn pump(&mut self) {
        loop {
            let mut moved = false;
            for output in self.scheduler.take_outputs() {
                moved = true;
                match output {
                    SchedulerOutput::Assign {
                        worker,
                        task,
                        priority,
                        deps,
                    } => {
                        self.assigned.push((worker, task));
                        self.worker(worker)
                            .on_assign(task, priority, deps)
                            .expect("the assignment is taken in");
                    }
                    SchedulerOutput::Steal { worker, task } => {
                        self.steals.push((worker, task));
                        let response = self.worker(worker).steal_task(task);
                        self.scheduler.task_steal_response(worker, task, response);
                    }
                    SchedulerOutput::RemoveTask { worker, task } => {
                        let state = self.worker(worker);
                        state.steal_task(task);
                        let _ = state.remove_data(task);
                    }
                }
            }
            let ids: Vec<u64> = self.workers.iter().map(|(id, _)| *id).collect();
            for id in ids {
                for action in self.worker(id).take_actions() {
                    moved = true;
                    match action {
                        WorkerAction::Download { id: data, .. } => self.downloads.push((id, data)),
                        WorkerAction::StartTask { subworker, task } => {
                            self.started.push((id, subworker, task))
                        }
                        WorkerAction::SendToServer(FromWorkerMessage::TaskFinished(message)) => {
                            self.finished.push(message.id);
                            self.scheduler.task_finished(id, message.id, message.size);
                        }
                        WorkerAction::SendToServer(FromWorkerMessage::TaskErred(message)) => {
                            self.scheduler.task_erred(id, message.id);
                        }
                        WorkerAction::SendToServer(FromWorkerMessage::DataDownloaded(message)) => {
                            self.scheduler.data_downloaded(id, message.id);
                        }
                        WorkerAction::SendToServer(FromWorkerMessage::DataUnavailable(message)) => {
                            self.unavailable.push(message.id);
                            self.scheduler.data_unavailable(message.id);
                        }
                        WorkerAction::SendToServer(FromWorkerMessage::StealResponse(message)) => {
                            self.scheduler
                                .task_steal_response(id, message.id, message.response);
                        }
                    }
                }
            }
            if !moved {
                return;
            }
        }
    }

    /// Lets the subworker that runs `task` on `worker` come to its end.
    fn finish(&mut self, worker: u64, task: u64, size: u64) {
        let subworker = self
            .started
            .iter()
            .rev()
            .find(|(on, _, started)| *on == worker && *started == task)
            .expect("the task was started")
            .1;
        self.worker(worker)
            .on_task_done(
                subworker,
                task,
                vec![task as u8; size as usize],
                SerializationType::Pickle,
            )
            .expect("the task runs on the subworker");
        self.pump();
    }

    /// What `holder` answers to a fetch of `data`.
    fn header(&mut self, holder: u64, data: u64) -> Option<(DataResponse, Vec<u8>)> {
        let state = &mut self.workers.iter_mut().find(|(id, _)| *id == holder)?.1;
        match state.data_object(data).map(|object| &object.state) {
            Some(DataObjectState::Local(local)) => Some((
                DataResponse::Data(FetchResponseData {
                    serializer: local.serializer,
                }),
                local.bytes.clone(),
            )),
            _ => Some((DataResponse::NotAvailable, Vec::new())),
        }
    }

    /// One fetch of `data` by `worker` from `holder`.
    fn fetch(&mut self, holder: u64, data: u64) -> Result<(Vec<u8>, SerializationType), FetchError> {
        let (state, action) = fetch_data(data, FetchState::Start, FetchEvent::Connected);
        assert!(matches!(action, FetchAction::Send(_)));
        let (state, action) = match self.header(holder, data) {
            None => fetch_data(data, state, FetchEvent::Closed),
            Some((header, bytes)) => match fetch_data(data, state, FetchEvent::Header(header)) {
                (state, FetchAction::ReadData) => fetch_data(data, state, FetchEvent::Frame(bytes)),
                other => other,
            },
        };
        assert_eq!(state, FetchState::Finished);
        match action {
            FetchAction::Deliver { data, serializer } => Ok((data, serializer)),
            FetchAction::Fail(error) => Err(error),
            _ => panic!("the fetch has ended"),
        }
    }

    /// Serves the downloads that the workers have asked for.
    fn serve_downloads(&mut self) {
        let downloads = std::mem::take(&mut self.downloads);
        for (worker, data) in downloads {
            let candidates = match self.worker(worker).data_object(data) {
                Some(object) => match &object.state {
                    DataObjectState::Remote(remote) => remote.workers.clone(),
                    _ => continue,
                },
                None => continue,
            };
            let mut plan = FetchPlan::new(data, candidates, 2, 10);
            let mut step = plan.step();
            let mut fetched = None;
            while let FetchStep::Connect { worker: holder, .. } = step {
                match self.fetch(holder, data) {
                    Ok(found) => {
                        self.transfers.push((holder, worker, data));
                        fetched = Some(found);
                        break;
                    }
                    Err(error) => step = plan.failed(error),
                }
            }
            match fetched {
                Some((bytes, serializer)) => {
                    self.worker(worker).on_data_downloaded(data, bytes, serializer)
                }
                None => self.worker(worker).on_data_unavailable(plan.id()),
            }
            self.pump();
        }
    }

    fn load(&self, worker: u64) -> usize {
        self.scheduler.worker(worker).unwrap().tasks.len()
    }
}

#[test]
fn linear_chain_on_one_worker() {
    let mut cluster = Cluster::new();
    cluster.add_worker(1, 1);
    cluster.submit(1, vec![], 0);
    cluster.submit(2, vec![1], 0);
    cluster.submit(3, vec![2], 0);
    assert_eq!(cluster.started, vec![(1, 0, 1)]);
    cluster.finish(1, 1, 4);
    cluster.finish(1, 2, 4);
    cluster.finish(1, 3, 4);
    let order: Vec<u64> = cluster.started.iter().map(|start| start.2).collect();
    assert_eq!(order, vec![1, 2, 3]);
    assert_eq!(cluster.finished, vec![1, 2, 3]);
    assert!(cluster.downloads.is_empty());
    assert!(cluster.transfers.is_empty());
    for id in 1..=3 {
        assert_eq!(cluster.scheduler.task(id).unwrap().state, TaskState::Finished);
    }
}

#[test]
fn fan_in_with_one_fetch() {
    let mut cluster = Cluster::new();
    cluster.add_worker(1, 1);
    cluster.add_worker(2, 1);
    cluster.submit(1, vec![], 0);
    cluster.submit(2, vec![], 0);
    cluster.submit(3, vec![1, 2], 0);
    assert_eq!(cluster.assigned, vec![(1, 1), (2, 2)]);
    cluster.finish(1, 1, 10);
    cluster.finish(2, 2, 30);
    // 30 bytes are missing on worker 1, 10 bytes on worker 2
    assert_eq!(cluster.assigned, vec![(1, 1), (2, 2), (2, 3)]);
    assert_eq!(cluster.downloads, vec![(2, 1)]);
    cluster.serve_downloads();
    assert_eq!(cluster.transfers, vec![(1, 2, 1)]);
    assert_eq!(cluster.started.last(), Some(&(2, 0, 3)));
    // the scheduler has learnt of the copy
    assert_eq!(cluster.scheduler.task(1).unwrap().locations, vec![1, 2]);
    cluster.finish(2, 3, 1);
    assert_eq!(cluster.finished, vec![1, 2, 3]);
}

#[test]
fn fan_in_tie_goes_to_the_smaller_worker() {
    let mut cluster = Cluster::new();
    cluster.add_worker(1, 1);
    cluster.add_worker(2, 1);
    cluster.submit(1, vec![], 0);
    cluster.submit(2, vec![], 0);
    cluster.submit(3, vec![1, 2], 0);
    cluster.finish(1, 1, 20);
    cluster.finish(2, 2, 20);
    assert_eq!(cluster.assigned.last(), Some(&(1, 3)));
    assert_eq!(cluster.downloads, vec![(1, 2)]);
    cluster.serve_downloads();
    assert_eq!(cluster.transfers, vec![(2, 1, 2)]);
    assert_eq!(cluster.started.last(), Some(&(1, 0, 3)));
}

#[test]
fn steal_moves_waiting_tasks_to_the_new_worker() {
    let mut cluster = Cluster::new();
    cluster.add_worker(1, 1);
    cluster.submit(1, vec![], 0);
    cluster.submit(2, vec![], 0);
    cluster.submit(3, vec![], 0);
    assert_eq!(cluster.assigned, vec![(1, 1), (1, 2), (1, 3)]);
    cluster.add_worker(2, 1);
    assert_eq!(cluster.load(1), 3);
    assert_eq!(cluster.load(2), 0);
    cluster.tick();
    assert_eq!(cluster.steals, vec![(1, 1), (1, 2), (1, 3)]);
    // task 1 runs and stays; the others move
    assert_eq!(cluster.scheduler.task(1).unwrap().state, TaskState::Running(1));
    assert_eq!(cluster.assigned[3..], [(2, 2), (2, 3)]);
    assert!(cluster.load(2) >= 1);
    let difference = cluster.load(1).abs_diff(cluster.load(2));
    assert!(difference <= 1);
    assert!(cluster.worker(1).task(2).is_none());
    assert_eq!(cluster.started, vec![(1, 0, 1), (2, 0, 2)]);
    // a second request for a task that is gone finds nothing
    assert_eq!(
        cluster.worker(1).steal_task(2),
        rsds::worker::messages::StealResponse::NotHere
    );
    cluster.tick();
    assert_eq!(cluster.steals.len(), 3);
}

#[test]
fn lost_worker_has_its_result_made_again() {
    let mut cluster = Cluster::new();
    cluster.add_worker(1, 1);
    cluster.add_worker(2, 1);
    cluster.submit(10, vec![], 0);
    cluster.finish(1, 10, 5);
    assert_eq!(cluster.scheduler.task(10).unwrap().locations, vec![1]);
    cluster.lose_worker(1);
    // the only copy is gone: the task is placed on the worker that is left
    assert_eq!(cluster.scheduler.task(10).unwrap().state, TaskState::Assigned(2));
    assert_eq!(cluster.assigned, vec![(1, 10), (2, 10)]);
    cluster.submit(11, vec![10], 0);
    assert_eq!(cluster.scheduler.task(11).unwrap().state, TaskState::Waiting(1));
    cluster.finish(2, 10, 5);
    assert_eq!(cluster.assigned.last(), Some(&(2, 11)));
    cluster.finish(2, 11, 1);
    assert_eq!(cluster.finished, vec![10, 10, 11]);
    assert_eq!(
        cluster.finished.iter().filter(|id| **id == 11).count(),
        1
    );
    assert!(cluster.transfers.is_empty());
}

#[test]
fn release_while_running_assigns_nothing_more() {
    let mut cluster = Cluster::new();
    cluster.add_worker(1, 1);
    cluster.submit(1, vec![], 0);
    cluster.submit(2, vec![1], 0);
    assert_eq!(cluster.started, vec![(1, 0, 1)]);
    cluster.release(&[1, 2]);
    // task 2 is gone at once, task 1 runs on
    assert!(cluster.scheduler.task(2).is_none());
    assert_eq!(cluster.scheduler.task(1).unwrap().state, TaskState::Assigned(1));
    cluster.finish(1, 1, 3);
    assert!(cluster.scheduler.task(1).is_none());
    assert_eq!(cluster.assigned, vec![(1, 1)]);
    assert_eq!(cluster.finished, vec![1]);
    // the worker was told to drop the result
    assert!(cluster.worker(1).data_object(1).is_none());
    assert!(cluster.scheduler.worker(1).unwrap().data.is_empty());
}

#[test]
fn fetch_failure_makes_the_producer_run_again() {
    let mut cluster = Cluster::new();
    cluster.add_worker(1, 1);
    cluster.add_worker(3, 1);
    // keep worker 1 busy so that the producer goes to worker 3
    cluster.submit(100, vec![], 0);
    cluster.submit(7, vec![], 0);
    assert_eq!(cluster.assigned, vec![(1, 100), (3, 7)]);
    cluster.finish(3, 7, 0);
    cluster.finish(1, 100, 0);
    // worker 3 loses the result without telling anybody
    assert_eq!(cluster.worker(3).remove_data(7), Ok(()));
    cluster.submit(8, vec![7], 0);
    // equal costs: the dependent goes to worker 1 and has to fetch
    assert_eq!(cluster.assigned.last(), Some(&(1, 8)));
    assert_eq!(cluster.downloads, vec![(1, 7)]);
    cluster.serve_downloads();
    assert_eq!(cluster.unavailable, vec![7]);
    assert!(cluster.transfers.is_empty());
    // the dependent was cancelled and the producer placed again
    assert!(cluster.worker(1).task(8).is_none());
    assert_eq!(cluster.scheduler.task(8).unwrap().state, TaskState::Waiting(1));
    assert_eq!(cluster.assigned.last(), Some(&(1, 7)));
    cluster.finish(1, 7, 0);
    assert_eq!(cluster.assigned.last(), Some(&(1, 8)));
    assert_eq!(cluster.started.last(), Some(&(1, 0, 8)));
    cluster.finish(1, 8, 0);
    assert_eq!(cluster.finished, vec![7, 100, 7, 8]);
}

#[test]
fn failed_task_takes_its_readers_with_it() {
    let mut cluster = Cluster::new();
    cluster.add_worker(1, 1);
    cluster.submit(1, vec![], 0);
    cluster.submit(2, vec![1], 0);
    cluster.submit(3, vec![], 0);
    assert_eq!(cluster.started, vec![(1, 0, 1)]);
    cluster
        .worker(1)
        .on_task_failed(0, 1)
        .expect("the task runs");
    cluster.pump();
    assert_eq!(cluster.scheduler.task(1).unwrap().state, TaskState::Erred);
    assert_eq!(cluster.scheduler.task(2).unwrap().state, TaskState::Erred);
    assert_eq!(cluster.assigned, vec![(1, 1), (1, 3)]);
    assert_eq!(cluster.started, vec![(1, 0, 1), (1, 0, 3)]);
    cluster.finish(1, 3, 2);
    assert_eq!(cluster.finished, vec![3]);
}
