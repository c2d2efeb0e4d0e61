//! What two workers say to each other about a data object.

use crate::common::{SerializationType, TaskId};
use vstd::prelude::*;

verus! {

/// Asks for the data object that the task `task_id` has made.
#[derive(Clone, Copy, Debug, PartialEq, Eq, Structural)]
pub struct FetchRequestMsg {
    pub task_id: TaskId,
}

/// A request to the worker that may hold a data object.
#[derive(Clone, Copy, Debug, PartialEq, Eq, Structural)]
pub enum DataRequest {
    FetchRequest(FetchRequestMsg),
}

/// Announces the bytes of a data object, which follow in a frame of their
/// own.
#[derive(Clone, Copy, Debug, PartialEq, Eq, Structural)]
pub struct FetchResponseData {
    pub serializer: SerializationType,
}

/// Acknowledges that a data object was taken in.
#[derive(Clone, Copy, Debug, PartialEq, Eq, Structural)]
pub struct UploadResponseMsg {
    pub task_id: TaskId,
}

/// The first answer to a data request.
#[derive(Clone, Copy, Debug, PartialEq, Eq, Structural)]
pub enum DataResponse {
    Data(FetchResponseData),
    NotAvailable,
    DataUploaded(UploadResponseMsg),
}

} // verus!
