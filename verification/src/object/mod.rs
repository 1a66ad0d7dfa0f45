//! Kernel objects: threads, communication objects and the task.
pub mod ipc;
pub mod task;
pub mod thread;
