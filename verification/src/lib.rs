//! Critical Path Method scheduling: task graphs with per-task timing
//! analysis, critical-path enumeration and parallelism measurement.

/// Error values shared by tasks, paths and the scheduler.
pub mod errors;

/// The task type: one node of the dependency graph.
pub mod customtask;

/// Verified decimal rendering of machine integers.
pub mod decimal;

/// The path type: one dependency chain through the graph.
pub mod path;

/// Locating parse errors in task-definition text.
pub mod input_parser;

/// The scheduling engine.
pub mod scheduler;

pub use crate::customtask::CustomTask;
pub use crate::errors::CpmError;
pub use crate::path::Path;
pub use crate::scheduler::Scheduler;
