//! The central scheduler.

pub mod failure;
pub mod flow;
pub mod graph;
pub mod keeping;
pub mod kind;
pub mod laws;
pub mod locations;
pub mod messages;
pub mod model;
pub mod node;
pub mod outputs;
pub mod recovery;
pub mod stealing;
pub mod task;
