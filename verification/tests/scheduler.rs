use rsds::scheduler::graph::{create_scheduler, Scheduler};
use rsds::scheduler::kind::SchedulerType;
use rsds::scheduler::messages::{SchedulerEvent, SchedulerOutput};
use rsds::scheduler::stealing::StealCommand;
use rsds::scheduler::task::TaskState;
use rsds::worker::messages::StealResponse;
use rsds::worker::reactor::Dependency;

fn workstealing(workers: &[(u64, u32)]) -> Scheduler {
    let mut scheduler = create_scheduler(SchedulerType::Workstealing, 0);
    for (id, ncpus) in workers {
        scheduler.worker_added(*id, format!("10.0.0.{}:7000", id), *ncpus);
    }
    scheduler
}

fn assign(worker: u64, task: u64, priority: (i32, i32), deps: Vec<Dependency>) -> SchedulerOutput {
    SchedulerOutput::Assign {
        worker,
        task,
        priority,
        deps,
    }
}

fn dep(id: u64, size: u64, workers: Vec<u64>) -> Dependency {
    Dependency { id, size, workers }
}

#[test]
fn task_is_placed_as_soon_as_it_is_submitted() {
    let mut scheduler = workstealing(&[(1, 1)]);
    scheduler.task_submit(10, vec![], 5, None);
    assert_eq!(scheduler.take_outputs(), vec![assign(1, 10, (5, 0), vec![])]);
    assert_eq!(scheduler.task(10).unwrap().state, TaskState::Assigned(1));
    assert_eq!(scheduler.worker(1).unwrap().tasks, vec![10]);
    assert_eq!(scheduler.ready_count(), 0);
}

#[test]
fn task_waits_for_a_worker_to_join() {
    let mut scheduler = workstealing(&[]);
    scheduler.task_submit(10, vec![], 0, None);
    scheduler.task_submit(11, vec![], 0, None);
    assert!(scheduler.take_outputs().is_empty());
    assert_eq!(scheduler.task(10).unwrap().state, TaskState::Waiting(0));
    assert_eq!(scheduler.ready_count(), 2);
    scheduler.worker_added(4, String::from("w4"), 2);
    assert_eq!(
        scheduler.take_outputs(),
        vec![assign(4, 10, (0, 0), vec![]), assign(4, 11, (0, 1), vec![])]
    );
    assert_eq!(scheduler.ready_count(), 0);
    assert_eq!(scheduler.worker_count(), 1);
    assert_eq!(scheduler.worker(4).unwrap().listen_address, "w4");
    assert_eq!(scheduler.worker(4).unwrap().ncpus, 2);
}

#[test]
fn known_worker_is_not_added_twice() {
    let mut scheduler = workstealing(&[(1, 1)]);
    scheduler.worker_added(1, String::from("elsewhere"), 8);
    assert_eq!(scheduler.worker_count(), 1);
    assert_eq!(scheduler.worker(1).unwrap().ncpus, 1);
}

#[test]
fn least_loaded_worker_gets_the_task_and_ties_go_to_the_smaller_id() {
    let mut scheduler = workstealing(&[(7, 1), (3, 1), (5, 1)]);
    for id in 0..6 {
        scheduler.task_submit(id, vec![], 0, None);
    }
    let placed: Vec<u64> = scheduler
        .take_outputs()
        .iter()
        .map(|output| match output {
            SchedulerOutput::Assign { worker, .. } => *worker,
            _ => panic!("only assignments are expected"),
        })
        .collect();
    assert_eq!(placed, vec![3, 5, 7, 3, 5, 7]);
}

#[test]
fn cost_weighs_load_against_bytes_to_move() {
    // alpha = 10 per task of load, beta = 1 per byte
    let mut scheduler = Scheduler::new(SchedulerType::Workstealing, 10, 1, 0, 0);
    scheduler.worker_added(1, String::from("w1"), 4);
    scheduler.worker_added(2, String::from("w2"), 4);
    scheduler.task_submit(100, vec![], 0, None);
    scheduler.task_finished(1, 100, 25);
    scheduler.take_outputs();
    // worker 1 holds the 25 bytes; one task of load on it costs 10
    scheduler.task_submit(101, vec![100], 0, None);
    scheduler.task_submit(102, vec![100], 0, None);
    scheduler.task_submit(103, vec![100], 0, None);
    scheduler.task_submit(104, vec![100], 0, None);
    let placed: Vec<u64> = scheduler
        .take_outputs()
        .iter()
        .map(|output| match output {
            SchedulerOutput::Assign { worker, .. } => *worker,
            _ => panic!("only assignments are expected"),
        })
        .collect();
    // costs on (w1, w2): (0, 25), (10, 25), (20, 25), (30, 25)
    assert_eq!(placed, vec![1, 1, 1, 2]);
}

#[test]
fn dependent_task_waits_and_learns_where_the_data_is() {
    let mut scheduler = workstealing(&[(1, 1), (2, 1)]);
    scheduler.task_submit(1, vec![], 0, Some(10));
    scheduler.task_submit(2, vec![], 0, None);
    scheduler.task_submit(3, vec![1, 2], 7, None);
    assert_eq!(scheduler.task(3).unwrap().state, TaskState::Waiting(2));
    assert_eq!(scheduler.task(1).unwrap().consumers, vec![3]);
    assert_eq!(scheduler.task(1).unwrap().size, Some(10));
    scheduler.take_outputs();
    scheduler.task_finished(1, 1, 100);
    assert_eq!(scheduler.task(3).unwrap().state, TaskState::Waiting(1));
    assert_eq!(scheduler.task(1).unwrap().state, TaskState::Finished);
    assert_eq!(scheduler.task(1).unwrap().locations, vec![1]);
    assert_eq!(scheduler.task(1).unwrap().size, Some(100));
    assert_eq!(scheduler.worker(1).unwrap().data, vec![1]);
    assert!(scheduler.worker(1).unwrap().tasks.is_empty());
    assert!(scheduler.take_outputs().is_empty());
    scheduler.task_finished(2, 2, 30);
    // on worker 1 the 30 bytes of task 2 are missing, on worker 2 the 100 of task 1
    assert_eq!(
        scheduler.take_outputs(),
        vec![assign(
            1,
            3,
            (7, 2),
            vec![dep(1, 100, vec![1]), dep(2, 30, vec![2])]
        )]
    );
}

#[test]
fn submission_that_cannot_be_taken_in_changes_nothing() {
    let mut scheduler = workstealing(&[(1, 1)]);
    scheduler.task_submit(1, vec![], 0, None);
    scheduler.take_outputs();
    scheduler.task_submit(1, vec![], 9, None);
    scheduler.task_submit(2, vec![99], 0, None);
    scheduler.task_submit(3, vec![1, 1], 0, None);
    assert!(scheduler.take_outputs().is_empty());
    assert_eq!(scheduler.task(1).unwrap().priority, (0, 0));
    assert!(scheduler.task(2).is_none());
    assert!(scheduler.task(3).is_none());
    assert!(scheduler.task(1).unwrap().consumers.is_empty());
}

#[test]
fn report_from_another_worker_changes_nothing() {
    let mut scheduler = workstealing(&[(1, 1), (2, 1)]);
    scheduler.task_submit(1, vec![], 0, None);
    scheduler.task_finished(2, 1, 5);
    scheduler.task_finished(1, 77, 5);
    assert_eq!(scheduler.task(1).unwrap().state, TaskState::Assigned(1));
    scheduler.task_finished(1, 1, 5);
    scheduler.task_finished(1, 1, 6);
    assert_eq!(scheduler.task(1).unwrap().size, Some(5));
}

#[test]
fn rebalance_plans_steals_from_the_overloaded_worker() {
    let mut scheduler = workstealing(&[(1, 1)]);
    for id in 10..13 {
        scheduler.task_submit(id, vec![], 0, None);
    }
    assert!(scheduler.rebalance().is_empty());
    scheduler.worker_added(2, String::from("w2"), 1);
    scheduler.take_outputs();
    let plan = scheduler.rebalance();
    assert_eq!(
        plan,
        vec![
            StealCommand {
                from: 1,
                task: 10,
                target: 2
            },
            StealCommand {
                from: 1,
                task: 11,
                target: 2
            },
            StealCommand {
                from: 1,
                task: 12,
                target: 2
            },
        ]
    );
    assert!(scheduler.take_outputs().is_empty());
    scheduler.tick();
    assert_eq!(
        scheduler.take_outputs(),
        vec![
            SchedulerOutput::Steal {
                worker: 1,
                task: 10
            },
            SchedulerOutput::Steal {
                worker: 1,
                task: 11
            },
            SchedulerOutput::Steal {
                worker: 1,
                task: 12
            },
        ]
    );
    assert_eq!(scheduler.task(10).unwrap().steal_target, Some(2));
    // a steal in flight is not started again
    assert!(scheduler.rebalance().is_empty());
    scheduler.tick();
    assert!(scheduler.take_outputs().is_empty());
}

#[test]
fn balanced_workers_are_left_alone() {
    let mut scheduler = workstealing(&[(1, 1), (2, 1)]);
    for id in 0..3 {
        scheduler.task_submit(id, vec![], 0, None);
    }
    scheduler.take_outputs();
    // loads 2 and 1: no worker is more than one above the average
    assert!(scheduler.rebalance().is_empty());
}

#[test]
fn margin_holds_back_small_gains() {
    let mut scheduler = Scheduler::new(SchedulerType::Workstealing, 1, 1, 3, 0);
    scheduler.worker_added(1, String::from("w1"), 1);
    for id in 0..3 {
        scheduler.task_submit(id, vec![], 0, None);
    }
    scheduler.worker_added(2, String::from("w2"), 1);
    // cost 3 on worker 1, 0 on worker 2: a gain of 3 is not more than the margin
    assert!(scheduler.rebalance().is_empty());
    scheduler.task_submit(3, vec![], 0, None);
    scheduler.task_submit(4, vec![], 0, None);
    scheduler.task_submit(5, vec![], 0, None);
    scheduler.take_outputs();
    // the new tasks went to worker 2; worker 1 is no longer overloaded
    assert_eq!(scheduler.worker(2).unwrap().tasks, vec![3, 4, 5]);
    assert!(scheduler.rebalance().is_empty());
}

#[test]
fn steal_answers_settle_the_task() {
    let mut scheduler = workstealing(&[(1, 1)]);
    for id in 10..13 {
        scheduler.task_submit(id, vec![], 0, None);
    }
    scheduler.worker_added(2, String::from("w2"), 1);
    scheduler.tick();
    scheduler.take_outputs();

    scheduler.task_steal_response(1, 10, StealResponse::Running);
    assert_eq!(scheduler.task(10).unwrap().state, TaskState::Running(1));
    assert_eq!(scheduler.task(10).unwrap().steal_target, None);

    scheduler.task_steal_response(1, 11, StealResponse::Success);
    assert_eq!(scheduler.task(11).unwrap().state, TaskState::Assigned(2));
    assert_eq!(scheduler.task(11).unwrap().steal_target, None);
    assert_eq!(scheduler.take_outputs(), vec![assign(2, 11, (0, 1), vec![])]);

    scheduler.task_steal_response(1, 12, StealResponse::NotHere);
    assert_eq!(scheduler.task(12).unwrap().state, TaskState::Assigned(1));
    assert_eq!(scheduler.task(12).unwrap().steal_target, None);

    assert_eq!(scheduler.worker(1).unwrap().tasks, vec![10, 12]);
    assert_eq!(scheduler.worker(2).unwrap().tasks, vec![11]);

    // answers that are not waited for
    scheduler.task_steal_response(1, 12, StealResponse::Success);
    scheduler.task_steal_response(2, 11, StealResponse::Success);
    scheduler.task_steal_response(1, 99, StealResponse::Success);
    assert!(scheduler.take_outputs().is_empty());
    assert_eq!(scheduler.task(12).unwrap().state, TaskState::Assigned(1));
}

#[test]
fn stolen_task_is_placed_anew_when_the_target_is_gone() {
    let mut scheduler = workstealing(&[(1, 1)]);
    for id in 10..13 {
        scheduler.task_submit(id, vec![], 0, None);
    }
    scheduler.worker_added(2, String::from("w2"), 1);
    scheduler.tick();
    scheduler.worker_lost(2);
    scheduler.take_outputs();
    scheduler.task_steal_response(1, 11, StealResponse::Success);
    assert_eq!(scheduler.task(11).unwrap().state, TaskState::Assigned(1));
    assert_eq!(scheduler.take_outputs(), vec![assign(1, 11, (0, 1), vec![])]);
    assert_eq!(scheduler.worker(1).unwrap().tasks, vec![10, 12, 11]);
}

#[test]
fn random_policy_prefers_workers_with_a_free_core() {
    let mut scheduler = Scheduler::new(SchedulerType::Random, 1, 1, 0, 12345);
    scheduler.worker_added(1, String::from("w1"), 1);
    scheduler.worker_added(2, String::from("w2"), 1);
    scheduler.worker_added(3, String::from("w3"), 1);
    for id in 0..3 {
        scheduler.task_submit(id, vec![], 0, None);
    }
    // each worker has one core, so each gets one of the first three tasks
    for worker in 1..=3 {
        assert_eq!(scheduler.worker(worker).unwrap().tasks.len(), 1);
    }
    scheduler.task_submit(3, vec![], 0, None);
    let loads: usize = (1..=3)
        .map(|worker| scheduler.worker(worker).unwrap().tasks.len())
        .sum();
    assert_eq!(loads, 4);
    assert!(scheduler.rebalance().is_empty());
    scheduler.tick();
    let steals = scheduler
        .take_outputs()
        .iter()
        .filter(|output| matches!(output, SchedulerOutput::Steal { .. }))
        .count();
    assert_eq!(steals, 0);
    assert_eq!(scheduler.kind(), SchedulerType::Random);
}

#[test]
fn random_draws_follow_the_seed() {
    let mut first = Scheduler::new(SchedulerType::Random, 1, 1, 0, 99);
    let mut second = Scheduler::new(SchedulerType::Random, 1, 1, 0, 99);
    for scheduler in [&mut first, &mut second] {
        for worker in 1..=4 {
            scheduler.worker_added(worker, String::from("w"), 64);
        }
        for id in 0..32 {
            scheduler.task_submit(id, vec![], 0, None);
        }
    }
    assert_eq!(first.take_outputs(), second.take_outputs());
    let used = (1..=4)
        .filter(|worker| !first.worker(*worker).unwrap().tasks.is_empty())
        .count();
    assert!(used >= 2);
}

#[test]
fn lost_worker_gives_its_tasks_back() {
    let mut scheduler = workstealing(&[(1, 1), (2, 1)]);
    scheduler.task_submit(1, vec![], 0, None);
    scheduler.task_submit(2, vec![], 0, None);
    scheduler.task_submit(3, vec![], 0, None);
    scheduler.take_outputs();
    assert_eq!(scheduler.worker(1).unwrap().tasks, vec![1, 3]);
    scheduler.worker_lost(1);
    assert!(scheduler.worker(1).is_none());
    assert_eq!(scheduler.worker_count(), 1);
    assert_eq!(
        scheduler.take_outputs(),
        vec![assign(2, 1, (0, 0), vec![]), assign(2, 3, (0, 2), vec![])]
    );
    assert_eq!(scheduler.worker(2).unwrap().tasks, vec![2, 1, 3]);
    scheduler.worker_lost(1);
    scheduler.worker_lost(2);
    assert_eq!(scheduler.worker_count(), 0);
    assert_eq!(scheduler.ready_count(), 3);
    for id in 1..=3 {
        assert_eq!(scheduler.task(id).unwrap().state, TaskState::Waiting(0));
    }
}

#[test]
fn locations_grow_by_replication_and_shrink_by_removal() {
    let mut scheduler = workstealing(&[(1, 1), (2, 1), (3, 1)]);
    scheduler.task_submit(1, vec![], 0, None);
    scheduler.task_finished(1, 1, 8);
    scheduler.data_downloaded(2, 1);
    scheduler.data_downloaded(2, 1);
    scheduler.data_downloaded(9, 1);
    scheduler.data_downloaded(3, 55);
    assert_eq!(scheduler.task(1).unwrap().locations, vec![1, 2]);
    assert_eq!(scheduler.worker(2).unwrap().data, vec![1]);
    scheduler.data_removed(3, 1);
    assert_eq!(scheduler.task(1).unwrap().locations, vec![1, 2]);
    scheduler.data_removed(1, 1);
    assert_eq!(scheduler.task(1).unwrap().locations, vec![2]);
    assert_eq!(scheduler.task(1).unwrap().state, TaskState::Finished);
    assert!(scheduler.worker(1).unwrap().data.is_empty());
    scheduler.take_outputs();
    // the last copy goes: the task runs again
    scheduler.data_removed(2, 1);
    assert_eq!(scheduler.task(1).unwrap().state, TaskState::Assigned(1));
    assert!(scheduler.task(1).unwrap().locations.is_empty());
    assert_eq!(scheduler.take_outputs(), vec![assign(1, 1, (0, 0), vec![])]);
}

#[test]
fn lost_result_makes_readers_wait_again() {
    let mut scheduler = workstealing(&[(1, 1), (2, 1)]);
    scheduler.task_submit(1, vec![], 0, None);
    scheduler.task_finished(1, 1, 0);
    scheduler.task_submit(2, vec![1], 0, None);
    scheduler.task_submit(3, vec![1], 0, None);
    scheduler.take_outputs();
    assert_eq!(scheduler.task(2).unwrap().state, TaskState::Assigned(1));
    assert_eq!(scheduler.task(3).unwrap().state, TaskState::Assigned(2));
    scheduler.data_unavailable(1);
    assert_eq!(scheduler.task(2).unwrap().state, TaskState::Waiting(1));
    assert_eq!(scheduler.task(3).unwrap().state, TaskState::Waiting(1));
    assert_eq!(scheduler.task(1).unwrap().state, TaskState::Assigned(1));
    assert_eq!(
        scheduler.take_outputs(),
        vec![
            SchedulerOutput::RemoveTask { worker: 1, task: 2 },
            SchedulerOutput::RemoveTask { worker: 2, task: 3 },
            assign(1, 1, (0, 0), vec![]),
        ]
    );
    scheduler.data_unavailable(1);
    scheduler.data_unavailable(99);
    assert!(scheduler.take_outputs().is_empty());
}

#[test]
fn released_task_goes_when_nothing_needs_it() {
    let mut scheduler = workstealing(&[(1, 1)]);
    scheduler.task_submit(1, vec![], 0, None);
    scheduler.task_submit(2, vec![1], 0, None);
    scheduler.task_finished(1, 1, 4);
    scheduler.take_outputs();
    // task 2 still has to be done and reads task 1
    scheduler.client_release(1);
    assert!(scheduler.task(1).unwrap().released);
    assert_eq!(scheduler.task(1).unwrap().state, TaskState::Finished);
    assert!(scheduler.take_outputs().is_empty());
    // once task 2 is done, the result of task 1 is dropped
    scheduler.task_finished(1, 2, 4);
    assert_eq!(scheduler.task(1).unwrap().state, TaskState::Released);
    assert!(scheduler.task(1).unwrap().locations.is_empty());
    assert_eq!(
        scheduler.take_outputs(),
        vec![SchedulerOutput::RemoveTask { worker: 1, task: 1 }]
    );
    assert_eq!(scheduler.worker(1).unwrap().data, vec![2]);
    // with task 2 released both leave the graph
    scheduler.client_release(2);
    assert!(scheduler.task(2).is_none());
    assert!(scheduler.task(1).is_none());
    assert_eq!(
        scheduler.take_outputs(),
        vec![SchedulerOutput::RemoveTask { worker: 1, task: 2 }]
    );
    assert!(scheduler.worker(1).unwrap().data.is_empty());
    scheduler.client_release(2);
    scheduler.client_release(404);
    assert!(scheduler.take_outputs().is_empty());
}

#[test]
fn released_task_with_lost_result_does_not_run_again() {
    let mut scheduler = workstealing(&[(1, 1), (2, 1)]);
    scheduler.task_submit(1, vec![], 0, None);
    scheduler.task_submit(2, vec![1], 0, None);
    scheduler.task_finished(1, 1, 4);
    scheduler.client_release(1);
    scheduler.take_outputs();
    scheduler.data_removed(1, 1);
    assert_eq!(scheduler.task(1).unwrap().state, TaskState::Released);
    assert_eq!(scheduler.task(2).unwrap().state, TaskState::Waiting(1));
    assert_eq!(
        scheduler.take_outputs(),
        vec![SchedulerOutput::RemoveTask { worker: 1, task: 2 }]
    );
}

#[test]
fn events_are_handled_like_the_calls() {
    let mut by_events = workstealing(&[]);
    let mut by_calls = workstealing(&[]);
    by_events.handle_event(SchedulerEvent::WorkerAdded {
        id: 1,
        address: String::from("a"),
        ncpus: 2,
    });
    by_calls.worker_added(1, String::from("a"), 2);
    by_events.handle_event(SchedulerEvent::WorkerAdded {
        id: 2,
        address: String::from("b"),
        ncpus: 2,
    });
    by_calls.worker_added(2, String::from("b"), 2);
    by_events.handle_event(SchedulerEvent::TaskSubmit {
        id: 1,
        deps: vec![],
        priority: 3,
        size: Some(9),
    });
    by_calls.task_submit(1, vec![], 3, Some(9));
    by_events.handle_event(SchedulerEvent::TaskSubmit {
        id: 2,
        deps: vec![1],
        priority: 3,
        size: None,
    });
    by_calls.task_submit(2, vec![1], 3, None);
    by_events.handle_event(SchedulerEvent::TaskFinished {
        worker: 1,
        id: 1,
        size: 10,
    });
    by_calls.task_finished(1, 1, 10);
    by_events.handle_event(SchedulerEvent::DataDownloaded { worker: 2, id: 1 });
    by_calls.data_downloaded(2, 1);
    by_events.handle_event(SchedulerEvent::DataRemoved { worker: 1, id: 1 });
    by_calls.data_removed(1, 1);
    by_events.handle_event(SchedulerEvent::Tick);
    by_calls.tick();
    by_events.handle_event(SchedulerEvent::TaskStealResponse {
        worker: 1,
        id: 2,
        response: StealResponse::NotHere,
    });
    by_calls.task_steal_response(1, 2, StealResponse::NotHere);
    by_events.handle_event(SchedulerEvent::DataUnavailable { id: 1 });
    by_calls.data_unavailable(1);
    by_events.handle_event(SchedulerEvent::ClientRelease { id: 2 });
    by_calls.client_release(2);
    by_events.handle_event(SchedulerEvent::WorkerLost { id: 1 });
    by_calls.worker_lost(1);
    assert_eq!(by_events.take_outputs(), by_calls.take_outputs());
    for id in [1, 2] {
        assert_eq!(by_events.task(id), by_calls.task(id));
        assert_eq!(by_events.worker(id), by_calls.worker(id));
    }
}

#[test]
fn failure_spreads_to_the_tasks_that_read_the_result() {
    let mut scheduler = workstealing(&[(1, 1), (2, 1)]);
    scheduler.task_submit(1, vec![], 0, None);
    scheduler.task_submit(2, vec![1], 0, None);
    scheduler.task_submit(3, vec![2], 0, None);
    scheduler.task_submit(4, vec![], 0, None);
    scheduler.task_submit(5, vec![4], 0, None);
    scheduler.take_outputs();
    scheduler.task_erred(2, 1);
    scheduler.task_erred(1, 77);
    assert_eq!(scheduler.task(1).unwrap().state, TaskState::Assigned(1));
    scheduler.task_erred(1, 1);
    for id in 1..=3 {
        assert_eq!(scheduler.task(id).unwrap().state, TaskState::Erred);
    }
    assert_eq!(scheduler.task(4).unwrap().state, TaskState::Assigned(2));
    assert_eq!(scheduler.task(5).unwrap().state, TaskState::Waiting(1));
    assert!(scheduler.worker(1).unwrap().tasks.is_empty());
    assert!(scheduler.take_outputs().is_empty());
    // a failed task is not finished by a late report
    scheduler.task_finished(1, 1, 3);
    assert_eq!(scheduler.task(1).unwrap().state, TaskState::Erred);
    // new tasks that read a failed one wait for good
    scheduler.task_submit(6, vec![3], 0, None);
    assert_eq!(scheduler.task(6).unwrap().state, TaskState::Waiting(1));
    // released, the failed tasks leave the graph from the end
    scheduler.client_release(1);
    assert!(scheduler.task(1).is_some());
    scheduler.client_release(6);
    scheduler.client_release(3);
    scheduler.client_release(2);
    for id in [1, 2, 3, 6] {
        assert!(scheduler.task(id).is_none());
    }
}

#[test]
fn failure_cancels_a_reader_that_runs() {
    let mut scheduler = workstealing(&[(1, 1)]);
    scheduler.task_submit(1, vec![], 0, None);
    scheduler.task_finished(1, 1, 0);
    scheduler.task_submit(2, vec![1], 0, None);
    scheduler.task_submit(3, vec![], 0, None);
    scheduler.task_submit(4, vec![], 0, None);
    scheduler.worker_added(2, String::from("w2"), 1);
    scheduler.tick();
    scheduler.task_steal_response(1, 2, StealResponse::Running);
    scheduler.task_steal_response(1, 3, StealResponse::NotHere);
    scheduler.task_steal_response(1, 4, StealResponse::NotHere);
    assert_eq!(scheduler.task(2).unwrap().state, TaskState::Running(1));
    // the result that task 2 has read is lost and made again on worker 2
    scheduler.data_removed(1, 1);
    assert_eq!(scheduler.task(1).unwrap().state, TaskState::Assigned(2));
    assert_eq!(scheduler.task(2).unwrap().state, TaskState::Running(1));
    scheduler.take_outputs();
    scheduler.handle_event(SchedulerEvent::TaskErred { worker: 2, id: 1 });
    assert_eq!(scheduler.task(1).unwrap().state, TaskState::Erred);
    assert_eq!(scheduler.task(2).unwrap().state, TaskState::Erred);
    assert_eq!(
        scheduler.take_outputs(),
        vec![SchedulerOutput::RemoveTask { worker: 1, task: 2 }]
    );
    assert_eq!(scheduler.worker(1).unwrap().tasks, vec![3, 4]);
    assert!(scheduler.worker(2).unwrap().tasks.is_empty());
}
