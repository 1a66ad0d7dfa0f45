//! Exception entry and system calls.
pub mod dispatch;
