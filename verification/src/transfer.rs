//! Transfer of data objects between workers.

pub mod fetch;
pub mod messages;
pub mod plan;
pub mod queue;
