//! The process and task subsystem of a small preemptive RISC-V kernel,
//! modelled as plain values: physical frames, per-process page tables,
//! task control blocks, a stride scheduler and the system-call layer.

pub mod config;
pub mod kernel;
pub mod mm;
pub mod sync;
pub mod syscall;
pub mod task;
pub mod trap;
