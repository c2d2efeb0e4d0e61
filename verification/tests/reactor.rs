use rsds::common::SerializationType;
use rsds::table::IdTable;
use rsds::worker::data::{DataObject, DataObjectState, LocalData};
use rsds::worker::error::ReactorError;
use rsds::worker::messages::{
    DataDownloadedMsg, DataUnavailableMsg, FromWorkerMessage, StealResponse, StealResponseMsg,
    TaskFinishedMsg, WorkerAction,
};
use rsds::worker::reactor::Dependency;
use rsds::worker::state::WorkerState;
use rsds::worker::subworker::Subworker;
use rsds::worker::task::{Task, TaskState};

fn worker(subworkers: u64) -> WorkerState {
    let mut state = WorkerState::new(
        1,
        subworkers as u32,
        String::from("127.0.0.1:9000"),
        IdTable::new(),
    );
    let mut slots = Vec::new();
    for id in 0..subworkers {
        slots.push(Subworker::new(100 + id));
    }
    state.set_subworkers(slots);
    state
}

fn dep(id: u64, size: u64, workers: Vec<u64>) -> Dependency {
    Dependency { id, size, workers }
}

fn local(id: u64, bytes: Vec<u8>) -> DataObject {
    DataObject::new(
        id,
        bytes.len() as u64,
        DataObjectState::Local(LocalData {
            serializer: SerializationType::Pickle,
            bytes,
        }),
    )
}

fn start(subworker: u64, task: u64) -> WorkerAction {
    WorkerAction::StartTask { subworker, task }
}

fn finished(id: u64, size: u64) -> WorkerAction {
    WorkerAction::SendToServer(FromWorkerMessage::TaskFinished(TaskFinishedMsg { id, size }))
}

fn downloaded(id: u64) -> WorkerAction {
    WorkerAction::SendToServer(FromWorkerMessage::DataDownloaded(DataDownloadedMsg { id }))
}

#[test]
fn new_worker_is_empty() {
    let mut addresses = IdTable::new();
    addresses.insert(2, String::from("10.0.0.2:7000"));
    let mut state = WorkerState::new(5, 4, String::from("10.0.0.5:7000"), addresses);
    assert_eq!(state.worker_id(), 5);
    assert_eq!(state.ncpus(), 4);
    assert_eq!(state.listen_address().as_str(), "10.0.0.5:7000");
    assert_eq!(
        state.worker_address(2).map(|address| address.as_str()),
        Some("10.0.0.2:7000")
    );
    assert_eq!(state.worker_address(3), None);
    assert_eq!(state.free_subworker_count(), 0);
    assert!(state.task(1).is_none());
    assert!(state.data_object(1).is_none());
    assert!(state.take_actions().is_empty());
}

#[test]
fn subworkers_are_free_and_last_is_used_first() {
    let mut state = worker(3);
    assert_eq!(state.free_subworker_count(), 3);
    assert_eq!(
        state.subworker(101),
        Some(Subworker {
            id: 101,
            running_task: None
        })
    );
    assert_eq!(state.subworker(7), None);
    state.add_task(Task::new(1, (0, 0)));
    assert_eq!(state.take_actions(), vec![start(102, 1)]);
    assert_eq!(
        state.subworker(102),
        Some(Subworker {
            id: 102,
            running_task: Some(1)
        })
    );
    assert_eq!(state.free_subworker_count(), 2);
}

#[test]
fn task_without_dependencies_starts_at_once() {
    let mut state = worker(1);
    state.add_task(Task::new(7, (0, 0)));
    assert_eq!(state.take_actions(), vec![start(100, 7)]);
    assert_eq!(state.task(7).unwrap().state, TaskState::Running(100));
    assert_eq!(state.steal_task(7), StealResponse::Running);
}

#[test]
fn linear_chain_runs_in_order_without_fetches() {
    // A, then B that reads A, then C that reads B, on one subworker.
    let mut state = worker(1);
    assert_eq!(state.on_assign(1, (0, 0), vec![]), Ok(()));
    assert_eq!(state.take_actions(), vec![start(100, 1)]);

    state.add_data_object(local(1, vec![1, 2, 3]));
    assert_eq!(state.on_task_finished(100, 1, 3), Ok(()));
    assert_eq!(state.take_actions(), vec![finished(1, 3)]);

    assert_eq!(state.on_assign(2, (0, 1), vec![dep(1, 3, vec![1])]), Ok(()));
    assert_eq!(state.take_actions(), vec![start(100, 2)]);
    state.add_data_object(local(2, vec![4]));
    assert_eq!(state.on_task_finished(100, 2, 1), Ok(()));
    assert_eq!(state.take_actions(), vec![finished(2, 1)]);

    assert_eq!(state.on_assign(3, (0, 2), vec![dep(2, 1, vec![1])]), Ok(()));
    assert_eq!(state.take_actions(), vec![start(100, 3)]);
    state.add_data_object(local(3, vec![]));
    assert_eq!(state.on_task_finished(100, 3, 0), Ok(()));
    assert_eq!(state.take_actions(), vec![finished(3, 0)]);

    assert!(state.task(1).is_none());
    assert!(state.task(2).is_none());
    assert!(state.task(3).is_none());
    assert_eq!(state.free_subworker_count(), 1);
}

#[test]
fn fan_in_fetches_only_the_remote_dependency() {
    let mut state = worker(1);
    state.add_data_object(local(1, vec![9; 10]));
    assert_eq!(
        state.on_assign(3, (0, 0), vec![dep(1, 10, vec![1]), dep(2, 20, vec![2])]),
        Ok(())
    );
    assert_eq!(
        state.take_actions(),
        vec![WorkerAction::Download {
            id: 2,
            priority: (0, 0)
        }]
    );
    assert_eq!(state.task(3).unwrap().state, TaskState::Waiting(1));
    assert_eq!(state.task(3).unwrap().deps, vec![1, 2]);

    state.on_data_downloaded(2, vec![7; 20], SerializationType::Raw);
    assert_eq!(state.take_actions(), vec![downloaded(2), start(100, 3)]);
    assert_eq!(state.task(3).unwrap().state, TaskState::Running(100));
    let fetched = state.data_object(2).unwrap();
    assert_eq!(
        fetched.state,
        DataObjectState::Local(LocalData {
            serializer: SerializationType::Raw,
            bytes: vec![7; 20]
        })
    );
    assert_eq!(fetched.size, 20);
}

#[test]
fn task_does_not_run_before_its_data_is_local() {
    let mut state = worker(2);
    assert_eq!(
        state.on_assign(5, (0, 0), vec![dep(1, 8, vec![2]), dep(2, 8, vec![3])]),
        Ok(())
    );
    assert_eq!(state.task(5).unwrap().state, TaskState::Waiting(2));
    state.try_start_tasks();
    assert_eq!(state.task(5).unwrap().state, TaskState::Waiting(2));
    state.take_actions();

    state.on_data_downloaded(1, vec![0; 8], SerializationType::Pickle);
    assert_eq!(state.task(5).unwrap().state, TaskState::Waiting(1));
    assert_eq!(state.take_actions(), vec![downloaded(1)]);

    state.on_data_downloaded(2, vec![0; 8], SerializationType::Pickle);
    assert_eq!(state.task(5).unwrap().state, TaskState::Running(101));
    assert_eq!(state.take_actions(), vec![downloaded(2), start(101, 5)]);
    for id in [1, 2] {
        assert!(state.data_object(id).unwrap().is_local());
    }
}

#[test]
fn consumers_are_the_tasks_that_read_the_object() {
    let mut state = worker(0);
    assert_eq!(state.on_assign(10, (0, 0), vec![dep(1, 4, vec![2])]), Ok(()));
    assert_eq!(
        state.on_assign(11, (0, 0), vec![dep(1, 4, vec![3]), dep(2, 4, vec![3])]),
        Ok(())
    );
    let mut readers = state.data_object(1).unwrap().consumers.clone();
    readers.sort();
    assert_eq!(readers, vec![10, 11]);
    assert_eq!(state.data_object(2).unwrap().consumers, vec![11]);
    // the latest assignment sets the candidates of a remote object
    assert_eq!(
        state.data_object(1).unwrap().state,
        DataObjectState::Remote(rsds::worker::data::RemoteData { workers: vec![3] })
    );

    assert_eq!(state.steal_task(10), StealResponse::Success);
    assert_eq!(state.data_object(1).unwrap().consumers, vec![11]);
    assert_eq!(state.steal_task(11), StealResponse::Success);
    assert!(state.data_object(1).unwrap().consumers.is_empty());
    assert_eq!(state.data_object(1).unwrap().state, DataObjectState::Removed);
    assert_eq!(state.data_object(2).unwrap().state, DataObjectState::Removed);
}

#[test]
fn second_steal_finds_the_task_gone() {
    let mut state = worker(0);
    assert_eq!(state.on_assign(4, (1, 1), vec![]), Ok(()));
    assert_eq!(state.steal_task(4), StealResponse::Success);
    assert!(state.task(4).is_none());
    assert_eq!(state.steal_task(4), StealResponse::NotHere);
    assert_eq!(state.steal_task(4), StealResponse::NotHere);
    assert_eq!(state.steal_task(99), StealResponse::NotHere);
    assert!(state.take_actions().is_empty());
}

#[test]
fn stolen_ready_task_leaves_the_queue() {
    let mut state = worker(1);
    assert_eq!(state.on_assign(1, (0, 0), vec![]), Ok(()));
    assert_eq!(state.on_assign(2, (0, 0), vec![]), Ok(()));
    assert_eq!(state.take_actions(), vec![start(100, 1)]);
    assert_eq!(state.steal_task(1), StealResponse::Running);
    assert_eq!(state.steal_task(2), StealResponse::Success);
    assert_eq!(state.on_task_finished(100, 1, 0), Ok(()));
    state.try_start_tasks();
    assert_eq!(state.take_actions(), vec![finished(1, 0)]);
    assert_eq!(state.free_subworker_count(), 1);
}

#[test]
fn smaller_priority_pair_starts_first() {
    let mut state = worker(1);
    assert_eq!(state.on_assign(1, (0, 0), vec![]), Ok(()));
    assert_eq!(state.on_assign(2, (5, 0), vec![]), Ok(()));
    assert_eq!(state.on_assign(3, (-1, 9), vec![]), Ok(()));
    assert_eq!(state.on_assign(4, (-1, 2), vec![]), Ok(()));
    assert_eq!(state.on_assign(5, (5, 0), vec![]), Ok(()));
    assert_eq!(state.take_actions(), vec![start(100, 1)]);
    let mut order = Vec::new();
    let mut running = 1;
    for _ in 0..4 {
        assert_eq!(state.on_task_finished(100, running, 0), Ok(()));
        state.try_start_tasks();
        let actions = state.take_actions();
        assert_eq!(actions.len(), 2);
        assert_eq!(actions[0], finished(running, 0));
        match actions[1] {
            WorkerAction::StartTask { subworker, task } => {
                assert_eq!(subworker, 100);
                order.push(task);
                running = task;
            }
            _ => panic!("a task has to start"),
        }
    }
    // equal pairs go by the smaller identifier
    assert_eq!(order, vec![4, 3, 2, 5]);
}

#[test]
fn tasks_made_ready_together_start_by_priority() {
    let mut state = worker(0);
    assert_eq!(state.on_assign(1, (3, 0), vec![dep(9, 1, vec![2])]), Ok(()));
    assert_eq!(state.on_assign(2, (1, 0), vec![dep(9, 1, vec![2])]), Ok(()));
    assert_eq!(state.on_assign(3, (2, 0), vec![dep(9, 1, vec![2])]), Ok(()));
    state.take_actions();
    state.on_data_downloaded(9, vec![1], SerializationType::Raw);
    assert_eq!(state.take_actions(), vec![downloaded(9)]);
    for id in [1, 2, 3] {
        assert_eq!(state.task(id).unwrap().state, TaskState::Waiting(0));
    }
    assert_eq!(state.steal_task(3), StealResponse::Success);
}

#[test]
fn ready_tasks_wait_for_a_free_subworker() {
    let mut state = worker(2);
    for id in 1..=4 {
        assert_eq!(state.on_assign(id, (0, id as i32), vec![]), Ok(()));
    }
    assert_eq!(state.take_actions(), vec![start(101, 1), start(100, 2)]);
    assert_eq!(state.task(3).unwrap().state, TaskState::Waiting(0));
    assert_eq!(state.free_subworker_count(), 0);
    assert_eq!(state.on_task_finished(100, 2, 0), Ok(()));
    assert_eq!(state.free_subworker_count(), 1);
    state.try_start_tasks();
    assert_eq!(state.take_actions(), vec![finished(2, 0), start(100, 3)]);
}

#[test]
fn download_for_unknown_or_removed_object_is_dropped() {
    let mut state = worker(1);
    state.on_data_downloaded(8, vec![1, 2], SerializationType::Raw);
    assert!(state.data_object(8).is_none());
    assert!(state.take_actions().is_empty());

    assert_eq!(state.on_assign(1, (0, 0), vec![dep(8, 2, vec![2])]), Ok(()));
    assert_eq!(state.steal_task(1), StealResponse::Success);
    assert!(state.data_object(8).unwrap().is_removed());
    state.take_actions();
    state.on_data_downloaded(8, vec![1, 2], SerializationType::Raw);
    assert!(state.data_object(8).unwrap().is_removed());
    assert!(state.take_actions().is_empty());
}

#[test]
fn remove_data_refuses_an_object_that_is_read() {
    let mut state = worker(0);
    assert_eq!(state.on_assign(1, (0, 0), vec![dep(8, 2, vec![2])]), Ok(()));
    assert_eq!(state.remove_data(8), Err(ReactorError::DataStillNeeded));
    assert!(state.data_object(8).unwrap().is_remote());
    assert_eq!(state.steal_task(1), StealResponse::Success);
    assert_eq!(state.remove_data(8), Ok(()));
    assert!(state.data_object(8).is_none());
    assert_eq!(state.remove_data(8), Ok(()));
    assert_eq!(state.remove_data(77), Ok(()));
}

#[test]
fn local_object_stays_when_its_last_reader_leaves() {
    let mut state = worker(1);
    state.add_data_object(local(1, vec![5]));
    assert_eq!(state.on_assign(2, (0, 0), vec![dep(1, 1, vec![])]), Ok(()));
    assert_eq!(state.data_object(1).unwrap().consumers, vec![2]);
    assert_eq!(state.on_task_finished(100, 2, 0), Ok(()));
    let object = state.data_object(1).unwrap();
    assert!(object.consumers.is_empty());
    assert!(object.is_local());
}

#[test]
fn assignment_of_a_known_task_is_refused() {
    let mut state = worker(0);
    assert_eq!(state.on_assign(1, (0, 0), vec![]), Ok(()));
    assert_eq!(
        state.on_assign(1, (0, 0), vec![dep(2, 1, vec![])]),
        Err(ReactorError::TaskAlreadyKnown)
    );
    assert!(state.data_object(2).is_none());
    assert_eq!(state.task(1).unwrap().deps, Vec::<u64>::new());
}

#[test]
fn assignment_with_a_repeated_dependency_is_refused() {
    let mut state = worker(0);
    assert_eq!(
        state.on_assign(
            1,
            (0, 0),
            vec![dep(2, 1, vec![]), dep(3, 1, vec![]), dep(2, 1, vec![])]
        ),
        Err(ReactorError::DependencyRepeated)
    );
    assert!(state.task(1).is_none());
    assert!(state.data_object(2).is_none());
    assert!(state.take_actions().is_empty());
}

#[test]
fn assignment_that_reads_a_removed_object_fetches_it_anew() {
    let mut state = worker(0);
    assert_eq!(state.on_assign(1, (0, 0), vec![dep(2, 1, vec![9])]), Ok(()));
    assert_eq!(state.steal_task(1), StealResponse::Success);
    assert_eq!(state.data_object(2).unwrap().state, DataObjectState::Removed);
    state.take_actions();
    assert_eq!(state.on_assign(3, (4, 0), vec![dep(2, 7, vec![8, 6])]), Ok(()));
    assert_eq!(state.task(3).unwrap().state, TaskState::Waiting(1));
    assert_eq!(state.task(3).unwrap().deps, vec![2]);
    let object = state.data_object(2).unwrap();
    assert_eq!(object.size, 7);
    assert_eq!(object.consumers, vec![3]);
    assert!(object.is_remote());
    assert_eq!(
        state.take_actions(),
        vec![WorkerAction::Download { id: 2, priority: (4, 0) }]
    );
    state.on_data_downloaded(2, vec![1, 2, 3], SerializationType::Pickle);
    assert_eq!(state.task(3).unwrap().state, TaskState::Waiting(0));
}

#[test]
fn end_of_a_task_that_does_not_run_is_refused() {
    let mut state = worker(2);
    assert_eq!(
        state.on_task_finished(100, 1, 0),
        Err(ReactorError::TaskNotRunning)
    );
    assert_eq!(state.on_assign(1, (0, 0), vec![]), Ok(()));
    assert_eq!(state.take_actions(), vec![start(101, 1)]);
    assert_eq!(
        state.on_task_finished(100, 1, 0),
        Err(ReactorError::TaskNotRunning)
    );
    assert_eq!(state.task(1).unwrap().state, TaskState::Running(101));
    assert!(state.take_actions().is_empty());
}

#[test]
fn message_to_the_server_goes_to_the_outbox() {
    let mut state = worker(0);
    let message = FromWorkerMessage::StealResponse(StealResponseMsg {
        id: 3,
        response: StealResponse::NotHere,
    });
    state.send_message_to_server(message);
    assert_eq!(
        state.take_actions(),
        vec![WorkerAction::SendToServer(message)]
    );
    assert!(state.take_actions().is_empty());
}

#[test]
fn add_ready_task_queues_behind_running_work() {
    let mut state = worker(1);
    state.add_ready_task(Task::new(1, (0, 0)));
    state.add_ready_task(Task::new(2, (0, 0)));
    assert_eq!(state.take_actions(), vec![start(100, 1)]);
    assert_eq!(state.task(2).unwrap().state, TaskState::Waiting(0));
    state.remove_task(2, false);
    assert!(state.task(2).is_none());
    state.remove_task(1, true);
    assert_eq!(state.free_subworker_count(), 1);
}

#[test]
fn dependency_on_local_data_adds_no_wait() {
    let mut state = worker(0);
    state.add_data_object(local(1, vec![1]));
    let mut task = Task::new(2, (0, 0));
    state.add_dependancy(&mut task, 1, 1, vec![4]);
    assert_eq!(task.state, TaskState::Waiting(0));
    assert_eq!(task.deps, vec![1]);
    assert!(task.is_ready());
    state.add_dependancy(&mut task, 3, 50, vec![4, 5]);
    assert_eq!(task.state, TaskState::Waiting(1));
    assert_eq!(task.get_waiting(), 1);
    assert!(!task.is_ready());
    assert!(!task.is_running());
    assert_eq!(task.queue_key(), (0, 0, 2));
    assert_eq!(
        state.take_actions(),
        vec![WorkerAction::Download {
            id: 3,
            priority: (0, 0)
        }]
    );
    let created = state.data_object(3).unwrap();
    assert_eq!(created.size, 50);
    assert_eq!(created.consumers, vec![2]);
    assert_eq!(
        created.state,
        DataObjectState::Remote(rsds::worker::data::RemoteData {
            workers: vec![4, 5]
        })
    );
    state.add_task(task);
    assert_eq!(state.task(2).unwrap().state, TaskState::Waiting(1));
}

#[test]
fn unavailable_data_is_reported_while_it_is_waited_for() {
    let mut state = worker(1);
    state.on_data_unavailable(8);
    assert!(state.take_actions().is_empty());
    assert_eq!(state.on_assign(1, (0, 0), vec![dep(8, 2, vec![2])]), Ok(()));
    state.take_actions();
    state.on_data_unavailable(8);
    assert_eq!(
        state.take_actions(),
        vec![WorkerAction::SendToServer(
            FromWorkerMessage::DataUnavailable(DataUnavailableMsg { id: 8 })
        )]
    );
    assert_eq!(state.task(1).unwrap().state, TaskState::Waiting(1));
    state.on_data_downloaded(8, vec![1, 2], SerializationType::Raw);
    state.take_actions();
    state.on_data_unavailable(8);
    assert!(state.take_actions().is_empty());
}

#[test]
fn failed_task_frees_its_subworker_and_is_reported() {
    let mut state = worker(1);
    assert_eq!(
        state.on_task_erred(100, 1),
        Err(ReactorError::TaskNotRunning)
    );
    state.add_data_object(local(9, vec![1]));
    assert_eq!(state.on_assign(1, (0, 0), vec![dep(9, 1, vec![])]), Ok(()));
    assert_eq!(state.on_assign(2, (0, 0), vec![]), Ok(()));
    assert_eq!(state.take_actions(), vec![start(100, 1)]);
    assert_eq!(
        state.on_task_erred(100, 2),
        Err(ReactorError::TaskNotRunning)
    );
    assert_eq!(state.on_task_erred(100, 1), Ok(()));
    assert!(state.task(1).is_none());
    assert!(state.data_object(9).unwrap().consumers.is_empty());
    assert_eq!(state.free_subworker_count(), 1);
    assert_eq!(
        state.take_actions(),
        vec![WorkerAction::SendToServer(FromWorkerMessage::TaskErred(
            rsds::worker::messages::TaskErredMsg { id: 1 }
        ))]
    );
    state.try_start_tasks();
    assert_eq!(state.take_actions(), vec![start(100, 2)]);
}

#[test]
fn result_of_a_task_is_entered_and_the_next_task_starts() {
    let mut state = worker(1);
    assert_eq!(state.on_assign(1, (0, 0), vec![]), Ok(()));
    assert_eq!(state.on_assign(2, (0, 1), vec![]), Ok(()));
    assert_eq!(state.take_actions(), vec![start(100, 1)]);
    assert!(state.is_queued(2));

    assert_eq!(
        state.on_task_done(100, 1, vec![7, 8, 9], SerializationType::Pickle),
        Ok(())
    );
    assert_eq!(state.take_actions(), vec![finished(1, 3), start(100, 2)]);
    assert!(state.task(1).is_none());
    assert_eq!(state.task(2).unwrap().state, TaskState::Running(100));
    let object = state.data_object(1).unwrap();
    assert_eq!(object.size, 3);
    assert!(object.consumers.is_empty());
    assert_eq!(
        object.state,
        DataObjectState::Local(LocalData {
            serializer: SerializationType::Pickle,
            bytes: vec![7, 8, 9],
        })
    );
}

#[test]
fn result_from_a_subworker_that_does_not_run_the_task_is_refused() {
    let mut state = worker(2);
    assert_eq!(state.on_assign(1, (0, 0), vec![]), Ok(()));
    assert_eq!(state.take_actions(), vec![start(101, 1)]);
    assert_eq!(
        state.on_task_done(100, 1, vec![1], SerializationType::Raw),
        Err(ReactorError::TaskNotRunning)
    );
    assert_eq!(
        state.on_task_done(101, 2, vec![1], SerializationType::Raw),
        Err(ReactorError::TaskNotRunning)
    );
    assert!(state.data_object(1).is_none());
    assert!(state.data_object(2).is_none());
    assert_eq!(state.task(1).unwrap().state, TaskState::Running(101));
    assert_eq!(state.free_subworker_count(), 1);
    assert!(state.take_actions().is_empty());
}

#[test]
fn result_wakes_the_tasks_that_waited_to_fetch_it() {
    let mut state = worker(2);
    assert_eq!(state.on_assign(1, (0, 0), vec![]), Ok(()));
    assert_eq!(state.on_assign(2, (0, 1), vec![dep(1, 5, vec![9])]), Ok(()));
    assert_eq!(state.task(2).unwrap().state, TaskState::Waiting(1));
    assert_eq!(
        state.take_actions(),
        vec![
            start(101, 1),
            WorkerAction::Download { id: 1, priority: (0, 1) }
        ]
    );

    assert_eq!(
        state.on_task_done(101, 1, vec![4, 4], SerializationType::Raw),
        Ok(())
    );
    assert_eq!(state.take_actions(), vec![finished(1, 2), start(101, 2)]);
    assert_eq!(state.task(2).unwrap().state, TaskState::Running(101));
    let object = state.data_object(1).unwrap();
    assert_eq!(object.size, 2);
    assert_eq!(object.consumers, vec![2]);
    assert!(object.is_local());
}

#[test]
fn object_made_here_keeps_the_readers_of_the_one_it_replaces() {
    let mut state = worker(0);
    assert_eq!(
        state.on_assign(5, (0, 0), vec![dep(1, 10, vec![3]), dep(2, 10, vec![3])]),
        Ok(())
    );
    assert_eq!(state.on_assign(6, (0, 1), vec![dep(1, 10, vec![3])]), Ok(()));
    state.take_actions();
    assert_eq!(state.task(5).unwrap().state, TaskState::Waiting(2));
    assert_eq!(state.task(6).unwrap().state, TaskState::Waiting(1));

    let mut made = local(1, vec![1, 2]);
    made.consumers.push(77);
    state.add_data_object(made);
    assert_eq!(state.task(5).unwrap().state, TaskState::Waiting(1));
    assert_eq!(state.task(6).unwrap().state, TaskState::Waiting(0));
    assert!(!state.is_queued(5));
    assert!(state.is_queued(6));
    assert_eq!(state.ready_count(), 1);
    assert_eq!(state.data_object(1).unwrap().consumers, vec![5, 6]);
    assert_eq!(state.data_object(1).unwrap().size, 2);
    assert!(state.take_actions().is_empty());

    state.add_data_object(local(1, vec![3, 4, 5]));
    assert_eq!(state.task(5).unwrap().state, TaskState::Waiting(1));
    assert_eq!(state.task(6).unwrap().state, TaskState::Waiting(0));
    assert_eq!(state.data_object(1).unwrap().consumers, vec![5, 6]);
    assert_eq!(state.data_object(1).unwrap().size, 3);
    assert_eq!(state.remove_data(1), Err(ReactorError::DataStillNeeded));
}

#[test]
fn object_made_here_under_a_new_identifier_has_no_readers() {
    let mut state = worker(1);
    let mut made = local(4, vec![1]);
    made.consumers.push(9);
    state.add_data_object(made);
    assert!(state.data_object(4).unwrap().consumers.is_empty());
    assert_eq!(state.data_object_count(), 1);
    assert_eq!(state.remove_data(4), Ok(()));
    assert_eq!(state.data_object_count(), 0);
}

#[test]
fn failure_of_a_task_starts_the_next_one() {
    let mut state = worker(1);
    assert_eq!(state.on_assign(1, (0, 0), vec![]), Ok(()));
    assert_eq!(state.on_assign(2, (0, 1), vec![]), Ok(()));
    assert_eq!(state.take_actions(), vec![start(100, 1)]);
    assert_eq!(
        state.on_task_failed(100, 2),
        Err(ReactorError::TaskNotRunning)
    );
    assert!(state.take_actions().is_empty());
    assert_eq!(state.on_task_failed(100, 1), Ok(()));
    assert_eq!(
        state.take_actions(),
        vec![
            WorkerAction::SendToServer(FromWorkerMessage::TaskErred(rsds::worker::messages::TaskErredMsg { id: 1 })),
            start(100, 2)
        ]
    );
    assert!(state.task(1).is_none());
    assert!(state.data_object(1).is_none());
}

#[test]
fn counts_follow_the_tasks_and_subworkers() {
    let mut state = worker(2);
    assert_eq!(state.subworker_count(), 2);
    assert_eq!(state.task_count(), 0);
    assert_eq!(state.ready_count(), 0);
    assert!(!state.is_queued(1));
    assert_eq!(state.on_assign(1, (0, 0), vec![]), Ok(()));
    assert_eq!(state.on_assign(2, (0, 0), vec![]), Ok(()));
    assert_eq!(state.on_assign(3, (0, 0), vec![]), Ok(()));
    assert_eq!(state.on_assign(4, (0, 0), vec![dep(9, 1, vec![])]), Ok(()));
    assert_eq!(state.task_count(), 4);
    assert_eq!(state.ready_count(), 1);
    assert_eq!(state.free_subworker_count(), 0);
    assert_eq!(state.subworker_count(), 2);
    assert!(!state.is_queued(1));
    assert!(state.is_queued(3));
    assert!(!state.is_queued(4));
    assert_eq!(state.data_object_count(), 1);
    assert_eq!(state.steal_task(3), StealResponse::Success);
    assert_eq!(state.ready_count(), 0);
    assert_eq!(state.task_count(), 3);
    assert!(!state.is_queued(3));
}

#[test]
fn download_for_an_object_made_here_is_dropped() {
    let mut state = worker(1);
    assert_eq!(state.on_assign(5, (0, 0), vec![dep(1, 4, vec![3])]), Ok(()));
    assert_eq!(
        state.take_actions(),
        vec![WorkerAction::Download { id: 1, priority: (0, 0) }]
    );
    state.add_data_object(local(1, vec![1, 1]));
    assert_eq!(state.take_actions(), vec![start(100, 5)]);

    state.on_data_downloaded(1, vec![9, 9, 9, 9], SerializationType::Raw);
    assert!(state.take_actions().is_empty());
    let object = state.data_object(1).unwrap();
    assert_eq!(object.size, 2);
    assert_eq!(
        object.state,
        DataObjectState::Local(LocalData {
            serializer: SerializationType::Pickle,
            bytes: vec![1, 1],
        })
    );
    assert_eq!(state.task(5).unwrap().state, TaskState::Running(100));
}
