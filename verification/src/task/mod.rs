//! Tasks: their control blocks, the table of tasks and the scheduler.

pub mod context;
pub mod manager;
pub mod scheduler;
pub mod switch;
pub mod task;
