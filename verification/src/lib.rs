//! An exokernel for AArch64: objects, scheduling, memory and boot logic, verified.
use vstd::prelude::*;

pub mod abi;
pub mod act;
pub mod arch;
pub mod boot;
pub mod boot_info;
pub mod bringup;
pub mod handle;
pub mod hw;
pub mod interrupt;
pub mod laws;
pub mod machine;
pub mod memory;
pub mod object;
pub mod resource;
pub mod scheduler;
pub mod syscall;
pub mod uart;
pub mod util;

verus! {

} // verus!
