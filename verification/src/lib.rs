//! Executes work after a delay, similar to `setTimeout` in js, using a single scheduler that
//! keeps every pending timeout ordered by the point in time at which it should run.
//!
//! This crate holds the verified core of the scheduler: the identifiers of timeouts and their
//! order, and the state machine that decides, event by event, which timeout runs next and how long
//! the scheduler has to wait.
pub mod scheduled_timeout;

pub use scheduled_timeout::ScheduledTimeoutIdentifier;
pub mod scheduler_task;
pub mod laws;
