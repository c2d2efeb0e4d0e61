//! Fetching one data object from another worker.
//!
//! The fetch is a conversation over a framed connection: the request goes
//! out, a header comes back, and after a header that announces data the bytes
//! follow in one frame. [`fetch_data`] decides each step of it; whoever owns
//! the connection carries the steps out and reports what came in.

use crate::common::{SerializationType, TaskId};
use crate::transfer::messages::{DataRequest, DataResponse, FetchRequestMsg};
use vstd::prelude::*;
use vstd::string::StringExecFns;

verus! {

/// How far a fetch has got.
#[derive(Clone, Copy, Debug, PartialEq, Eq, Structural)]
pub enum FetchState {
    /// Nothing has been sent.
    Start,
    /// The request is out and the header is awaited.
    AwaitingHeader,
    /// The header announced data, whose bytes are awaited.
    AwaitingData(SerializationType),
    /// The fetch has ended, with the data or with a failure.
    Finished,
}

/// What the owner of the connection reports.
#[derive(Debug, PartialEq, Eq)]
pub enum FetchEvent {
    /// The connection is ready.
    Connected,
    /// A header has come in.
    Header(DataResponse),
    /// A frame of bytes has come in.
    Frame(Vec<u8>),
    /// The connection was closed by the other side.
    Closed,
}

/// Why a fetch has failed.
#[derive(Clone, Copy, Debug, PartialEq, Eq, Structural)]
pub enum FetchError {
    /// The connection was closed while an answer was awaited.
    ConnectionClosed,
    /// The other worker does not have the data object.
    NotAvailable,
    /// The other worker answered a fetch with something else.
    InvalidResponse,
    /// Something was reported that the fetch did not wait for.
    UnexpectedEvent,
}

/// What the owner of the connection has to do next.
#[derive(Debug, PartialEq, Eq)]
pub enum FetchAction {
    /// Send the request, then read the header.
    Send(DataRequest),
    /// Read the frame with the bytes.
    ReadData,
    /// Hand the bytes to the reactor: the fetch has succeeded.
    Deliver { data: Vec<u8>, serializer: SerializationType },
    /// Give up: the fetch has failed.
    Fail(FetchError),
}

/// A report as the state machine sees it.
pub enum FetchEventView {
    Connected,
    Header(DataResponse),
    Frame(Seq<u8>),
    Closed,
}

/// An action as the state machine sees it.
pub enum FetchActionView {
    Send(DataRequest),
    ReadData,
    Deliver { data: Seq<u8>, serializer: SerializationType },
    Fail(FetchError),
}

impl View for FetchEvent {
    type V = FetchEventView;

    open spec fn view(&self) -> FetchEventView {
        match self {
            FetchEvent::Connected => FetchEventView::Connected,
            FetchEvent::Header(response) => FetchEventView::Header(*response),
            FetchEvent::Frame(bytes) => FetchEventView::Frame(bytes@),
            FetchEvent::Closed => FetchEventView::Closed,
        }
    }
}

impl View for FetchAction {
    type V = FetchActionView;

    open spec fn view(&self) -> FetchActionView {
        match self {
            FetchAction::Send(request) => FetchActionView::Send(*request),
            FetchAction::ReadData => FetchActionView::ReadData,
            FetchAction::Deliver { data, serializer } => FetchActionView::Deliver {
                data: data@,
                serializer: *serializer,
            },
            FetchAction::Fail(error) => FetchActionView::Fail(*error),
        }
    }
}

/// The step that follows `event` in `state`, for a fetch of the data object
/// `task_id`: the next state and the action to carry out.
pub open spec fn fetch_step(task_id: TaskId, state: FetchState, event: FetchEventView) -> (
    FetchState,
    FetchActionView,
) {
    match (state, event) {
        (FetchState::Start, FetchEventView::Connected) => (
            FetchState::AwaitingHeader,
            FetchActionView::Send(DataRequest::FetchRequest(FetchRequestMsg { task_id })),
        ),
        (FetchState::AwaitingHeader, FetchEventView::Header(DataResponse::Data(header))) => (
            FetchState::AwaitingData(header.serializer),
            FetchActionView::ReadData,
        ),
        (FetchState::AwaitingHeader, FetchEventView::Header(DataResponse::NotAvailable)) => (
            FetchState::Finished,
            FetchActionView::Fail(FetchError::NotAvailable),
        ),
        (FetchState::AwaitingHeader, FetchEventView::Header(DataResponse::DataUploaded(_))) => (
            FetchState::Finished,
            FetchActionView::Fail(FetchError::InvalidResponse),
        ),
        (FetchState::AwaitingHeader, FetchEventView::Closed) => (
            FetchState::Finished,
            FetchActionView::Fail(FetchError::ConnectionClosed),
        ),
        (FetchState::AwaitingData(serializer), FetchEventView::Frame(data)) => (
            FetchState::Finished,
            FetchActionView::Deliver { data, serializer },
        ),
        (FetchState::AwaitingData(_), FetchEventView::Closed) => (
            FetchState::Finished,
            FetchActionView::Fail(FetchError::ConnectionClosed),
        ),
        _ => (FetchState::Finished, FetchActionView::Fail(FetchError::UnexpectedEvent)),
    }
}

/// Decides the next step of a fetch of the data object `task_id`. The request
/// is sent first. A header that announces data is followed by the frame with
/// the bytes, which are delivered with the serializer that the header named.
/// The fetch fails when the other worker does not have the object, when it
/// answers with anything but data, when the connection is closed before the
/// answer is complete, and when something is reported out of turn.
pub fn fetch_data(task_id: TaskId, state: FetchState, event: FetchEvent) -> (step: (
    FetchState,
    FetchAction,
))
    ensures
        (step.0, step.1@) == fetch_step(task_id, state, event@),
{
    match state {
        FetchState::Start => match event {
            FetchEvent::Connected => (
                FetchState::AwaitingHeader,
                FetchAction::Send(DataRequest::FetchRequest(FetchRequestMsg { task_id })),
            ),
            _ => (FetchState::Finished, FetchAction::Fail(FetchError::UnexpectedEvent)),
        },
        FetchState::AwaitingHeader => match event {
            FetchEvent::Header(DataResponse::Data(header)) => (
                FetchState::AwaitingData(header.serializer),
                FetchAction::ReadData,
            ),
            FetchEvent::Header(DataResponse::NotAvailable) => (
                FetchState::Finished,
                FetchAction::Fail(FetchError::NotAvailable),
            ),
            FetchEvent::Header(DataResponse::DataUploaded(_)) => (
                FetchState::Finished,
                FetchAction::Fail(FetchError::InvalidResponse),
            ),
            FetchEvent::Closed => (
                FetchState::Finished,
                FetchAction::Fail(FetchError::ConnectionClosed),
            ),
            _ => (FetchState::Finished, FetchAction::Fail(FetchError::UnexpectedEvent)),
        },
        FetchState::AwaitingData(serializer) => match event {
            FetchEvent::Frame(data) => (FetchState::Finished, FetchAction::Deliver { data, serializer }),
            FetchEvent::Closed => (
                FetchState::Finished,
                FetchAction::Fail(FetchError::ConnectionClosed),
            ),
            _ => (FetchState::Finished, FetchAction::Fail(FetchError::UnexpectedEvent)),
        },
        FetchState::Finished => (FetchState::Finished, FetchAction::Fail(FetchError::UnexpectedEvent)),
    }
}

impl FetchError {
    /// The text of the failure.
    pub open spec fn spec_message(self) -> Seq<char> {
        match self {
            FetchError::ConnectionClosed => "Unexpected close of connection"@,
            FetchError::NotAvailable => "Data object not available"@,
            FetchError::InvalidResponse => "Request returned invalid response"@,
            FetchError::UnexpectedEvent => "Unexpected event"@,
        }
    }

    /// The text of the failure.
    pub fn message(&self) -> (text: String)
        ensures
            text@ == self.spec_message(),
    {
        match self {
            FetchError::ConnectionClosed => String::from_str("Unexpected close of connection"),
            FetchError::NotAvailable => String::from_str("Data object not available"),
            FetchError::InvalidResponse => String::from_str("Request returned invalid response"),
            FetchError::UnexpectedEvent => String::from_str("Unexpected event"),
        }
    }
}

} // verus!
