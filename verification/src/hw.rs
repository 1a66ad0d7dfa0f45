//! What the kernel asks of the hardware.
//!
//! The logic never touches a register or a physical page itself. It appends operations, in
//! the order in which they take effect, to a list that its caller carries out.
use crate::abi::{IpcMessage, UserBootInfo};
use vstd::prelude::*;

verus! {

#[derive(Clone, Copy)]
#[verifier::ext_equal]
pub enum HwOp {
    /// Write a register of the interrupt distributor.
    DistWrite { offset: u64, value: u32 },
    /// Read a distributor register, clear and then set bits, and write it back.
    DistModify { offset: u64, clear: u32, set: u32 },
    /// Write a register of the interrupt controller's CPU interface.
    CpuWrite { offset: u64, value: u32 },
    /// Read a CPU interface register, clear and then set bits, and write it back.
    CpuModify { offset: u64, clear: u32, set: u32 },
    /// Full barrier and instruction synchronization.
    Barrier,
    /// Make earlier stores visible to the other processors.
    StoreBarrier,
    /// Signal an event to all processors.
    Sev,
    /// Load the countdown of the local timer and start it.
    ArmTimer { use_virtual: bool, ticks: u32 },
    /// Mask and stop the local timer.
    DisarmTimer { use_virtual: bool },
    /// Drop all cached translations on every processor.
    FlushTlb,
    /// Make `root` the translation table of this processor.
    SwitchTable { root: u64, asid: u16 },
    /// Make earlier data writes to the pages visible to instruction fetch.
    SyncForExec { pa: u64, pages: u64 },
    /// Fill physical memory with zero bytes.
    Zero { pa: u64, bytes: u64 },
    /// Copy bytes of the program image, from offset `from` on, to physical memory.
    CopyImage { pa: u64, from: u64, bytes: u64 },
    /// Write what a task is told of its platform at the start of a page.
    WriteBootInfo { pa: u64, info: UserBootInfo },
    /// Store a word of a translation table.
    Store { pa: u64, word: u64 },
    /// Copy a message into a thread's IPC buffer.
    WriteMessage { va: u64, message: IpcMessage },
    /// Send a string of the current task to the console.
    PutUser { va: u64, len: u64 },
}

} // verus!
