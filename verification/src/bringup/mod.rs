//! A monitor for bringing up a board: one processor, one task, no threads. It shares physical
//! memory, translation tables and the device tree reader with the kernel.
pub mod dtb;
pub mod gic;
pub mod protect;
pub mod task;
pub mod trap;
