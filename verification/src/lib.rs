//! Core of a distributed task scheduler: the central scheduler and the
//! reactor of a worker.

pub mod common;
pub mod idlist;
pub mod index;
pub mod queue;
pub mod scheduler;
pub mod table;
pub mod transfer;
pub mod worker;
