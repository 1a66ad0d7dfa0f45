//! From firmware to a running task.
pub mod dtb;
pub mod early;
pub mod elf;
pub mod kmain;
