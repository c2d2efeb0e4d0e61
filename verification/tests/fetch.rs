use rsds::common::SerializationType;
use rsds::scheduler::graph::create_scheduler;
use rsds::scheduler::kind::SchedulerType;
use rsds::transfer::fetch::{fetch_data, FetchAction, FetchError, FetchEvent, FetchState};
use rsds::transfer::plan::{FetchPlan, FetchStep};
use rsds::transfer::messages::{
    DataRequest, DataResponse, FetchRequestMsg, FetchResponseData, UploadResponseMsg,
};

#[test]
fn fetch_sends_the_request_first() {
    assert_eq!(
        fetch_data(12, FetchState::Start, FetchEvent::Connected),
        (
            FetchState::AwaitingHeader,
            FetchAction::Send(DataRequest::FetchRequest(FetchRequestMsg { task_id: 12 }))
        )
    );
}

#[test]
fn fetch_delivers_the_bytes_with_the_announced_serializer() {
    let header = DataResponse::Data(FetchResponseData {
        serializer: SerializationType::Pickle,
    });
    let (state, action) = fetch_data(12, FetchState::AwaitingHeader, FetchEvent::Header(header));
    assert_eq!(state, FetchState::AwaitingData(SerializationType::Pickle));
    assert_eq!(action, FetchAction::ReadData);
    assert_eq!(
        fetch_data(12, state, FetchEvent::Frame(vec![1, 2, 3])),
        (
            FetchState::Finished,
            FetchAction::Deliver {
                data: vec![1, 2, 3],
                serializer: SerializationType::Pickle
            }
        )
    );
}

#[test]
fn fetch_fails_when_the_object_is_not_available() {
    assert_eq!(
        fetch_data(
            1,
            FetchState::AwaitingHeader,
            FetchEvent::Header(DataResponse::NotAvailable)
        ),
        (
            FetchState::Finished,
            FetchAction::Fail(FetchError::NotAvailable)
        )
    );
    assert_eq!(
        FetchError::NotAvailable.message(),
        "Data object not available"
    );
}

#[test]
fn fetch_fails_on_an_answer_that_is_no_data() {
    let answer = DataResponse::DataUploaded(UploadResponseMsg { task_id: 1 });
    assert_eq!(
        fetch_data(1, FetchState::AwaitingHeader, FetchEvent::Header(answer)),
        (
            FetchState::Finished,
            FetchAction::Fail(FetchError::InvalidResponse)
        )
    );
    assert_eq!(
        FetchError::InvalidResponse.message(),
        "Request returned invalid response"
    );
}

#[test]
fn fetch_fails_when_the_connection_closes() {
    for state in [
        FetchState::AwaitingHeader,
        FetchState::AwaitingData(SerializationType::Raw),
    ] {
        assert_eq!(
            fetch_data(1, state, FetchEvent::Closed),
            (
                FetchState::Finished,
                FetchAction::Fail(FetchError::ConnectionClosed)
            )
        );
    }
    assert_eq!(
        FetchError::ConnectionClosed.message(),
        "Unexpected close of connection"
    );
}

#[test]
fn fetch_fails_on_what_it_did_not_wait_for() {
    let unexpected = (
        FetchState::Finished,
        FetchAction::Fail(FetchError::UnexpectedEvent),
    );
    assert_eq!(
        fetch_data(1, FetchState::Start, FetchEvent::Closed),
        unexpected
    );
    assert_eq!(
        fetch_data(1, FetchState::Start, FetchEvent::Frame(vec![])),
        unexpected
    );
    assert_eq!(
        fetch_data(1, FetchState::AwaitingHeader, FetchEvent::Frame(vec![1])),
        unexpected
    );
    assert_eq!(
        fetch_data(1, FetchState::AwaitingHeader, FetchEvent::Connected),
        unexpected
    );
    assert_eq!(
        fetch_data(
            1,
            FetchState::AwaitingData(SerializationType::Raw),
            FetchEvent::Header(DataResponse::NotAvailable)
        ),
        unexpected
    );
    assert_eq!(
        fetch_data(1, FetchState::Finished, FetchEvent::Connected),
        unexpected
    );
    assert_eq!(FetchError::UnexpectedEvent.message(), "Unexpected event");
}

#[test]
fn scheduler_names_are_read() {
    assert_eq!(
        SchedulerType::from_str("workstealing"),
        Ok(SchedulerType::Workstealing)
    );
    assert_eq!(SchedulerType::from_str("random"), Ok(SchedulerType::Random));
    assert_eq!(
        SchedulerType::from_str("fifo"),
        Err(String::from("Scheduler 'fifo' does not exist"))
    );
    assert_eq!(
        SchedulerType::from_str(""),
        Err(String::from("Scheduler '' does not exist"))
    );
    assert_eq!(
        SchedulerType::from_str("Random"),
        Err(String::from("Scheduler 'Random' does not exist"))
    );
}

#[test]
fn scheduler_is_made_with_the_asked_policy() {
    assert_eq!(
        create_scheduler(SchedulerType::Workstealing, 0).kind(),
        SchedulerType::Workstealing
    );
    assert_eq!(
        create_scheduler(SchedulerType::Random, 7).kind(),
        SchedulerType::Random
    );
}

#[test]
fn candidates_are_asked_in_their_order() {
    let mut plan = FetchPlan::new(5, vec![30, 10, 20], 0, 100);
    assert_eq!(plan.id(), 5);
    assert_eq!(
        plan.step(),
        FetchStep::Connect {
            worker: 30,
            delay: 0
        }
    );
    assert_eq!(
        plan.failed(FetchError::NotAvailable),
        FetchStep::Connect {
            worker: 10,
            delay: 0
        }
    );
    assert_eq!(
        plan.failed(FetchError::ConnectionClosed),
        FetchStep::Connect {
            worker: 20,
            delay: 0
        }
    );
    assert_eq!(plan.failed(FetchError::InvalidResponse), FetchStep::GiveUp);
    assert_eq!(plan.step(), FetchStep::GiveUp);
    assert_eq!(plan.failed(FetchError::NotAvailable), FetchStep::GiveUp);
}

#[test]
fn lost_connection_is_retried_with_a_doubling_delay() {
    let mut plan = FetchPlan::new(5, vec![1, 2], 3, 100);
    let mut delays = Vec::new();
    let mut step = plan.step();
    while let FetchStep::Connect { worker, delay } = step {
        delays.push((worker, delay));
        step = plan.failed(FetchError::ConnectionClosed);
    }
    assert_eq!(
        delays,
        vec![
            (1, 0),
            (1, 100),
            (1, 200),
            (1, 400),
            (2, 0),
            (2, 100),
            (2, 200),
            (2, 400)
        ]
    );
}

#[test]
fn retry_delay_stops_at_the_largest_number() {
    let mut plan = FetchPlan::new(5, vec![1], 70, u64::MAX / 4 + 1);
    let mut last = 0;
    let mut attempts = 0;
    let mut step = plan.step();
    while let FetchStep::Connect { delay, .. } = step {
        assert!(delay >= last);
        last = delay;
        attempts += 1;
        step = plan.failed(FetchError::ConnectionClosed);
    }
    assert_eq!(attempts, 71);
    assert_eq!(last, u64::MAX);
}

#[test]
fn plan_without_candidates_gives_up_at_once() {
    let mut plan = FetchPlan::new(5, vec![], 3, 100);
    assert_eq!(plan.step(), FetchStep::GiveUp);
    assert_eq!(plan.failed(FetchError::ConnectionClosed), FetchStep::GiveUp);
}

#[test]
fn downloads_leave_the_queue_most_urgent_first() {
    let mut downloads = rsds::transfer::queue::DownloadQueue::new();
    assert_eq!(downloads.pop(), None);
    downloads.push(10, (5, 0));
    downloads.push(11, (1, 7));
    downloads.push(12, (1, 2));
    downloads.push(13, (5, 0));
    downloads.push(9, (5, 0));
    // asked for again on behalf of a more urgent task
    downloads.push(10, (0, 0));
    let mut order = Vec::new();
    while let Some(id) = downloads.pop() {
        order.push(id);
    }
    assert_eq!(order, vec![10, 12, 11, 9, 13]);
    assert_eq!(downloads.pop(), None);
}
