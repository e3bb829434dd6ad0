//! Tasks: their control blocks, identifiers, kernel stacks and scheduling.

pub mod context;
pub mod manager;
pub mod pid;
pub mod task;
pub mod processor;
