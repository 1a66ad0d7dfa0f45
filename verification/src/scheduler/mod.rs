//! Per-processor preemptive scheduling by static priority.
pub mod priority;
pub mod timer;
