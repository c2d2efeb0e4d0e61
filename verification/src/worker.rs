//! The per-worker reactor: local tasks, data objects and subworkers.

pub mod data;
pub mod error;
pub mod laws;
pub mod messages;
pub mod model;
pub mod reactor;
pub mod state;
pub mod subworker;
pub mod task;
