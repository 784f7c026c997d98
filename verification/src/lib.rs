//! The SHA-256 message-extension precompile of a zero-knowledge virtual
//! machine: the extension itself (`schedule`), the syscall that runs it
//! against the machine's memory and records an event (`chip`, over the
//! memory model of `runtime`), and the rows of its trace (`trace`).
pub mod chip;
pub mod runtime;
pub mod schedule;
pub mod trace;
