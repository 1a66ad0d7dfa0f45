//! The state of the whole kernel and the terms in which its operations are stated.
//!
//! One value holds every table of the kernel. Whoever carries the kernel keeps it behind one
//! lock, so that each entry from EL0 or from an interrupt is one step on that value.
use crate::abi::{IpcMessage, ThreadCreateConfig};
use crate::arch::smp::Smp;
use crate::hw::HwOp;
use crate::interrupt::gic::Gic;
use crate::memory::frame::FrameEntry;
use crate::memory::mmu::{PageTable, TableView};
use crate::memory::physical::PhysicalMemory;
use crate::memory::vspace::{MappingEntry, VSpaceEntry, VSpaces};
use crate::object::ipc::{Endpoint, Ipc, Notification, Reply};
use crate::object::task::TaskResources;
use crate::object::thread::{self, Thread, ThreadState, ThreadTable};
use crate::resource::protect::ProtectTable;
use crate::scheduler::priority::{CpuScheduler, Scheduler};
use crate::scheduler::timer::Timer;
use vstd::prelude::*;

verus! {

/// Every table of the kernel that is plain data.
#[derive(Clone, Copy)]
#[verifier::ext_equal]
pub struct Kernel {
    pub threads: ThreadTable,
    pub sched: Scheduler,
    pub timer: Timer,
    pub smp: Smp,
    pub gic: Gic,
    pub ipc: Ipc,
    pub task: TaskResources,
    pub frames: [FrameEntry; 64],
    pub spaces: VSpaces,
    pub mem: PhysicalMemory,
    pub protect: ProtectTable,
    /// Physical address of the translation table that was activated last; zero before that.
    pub active_table: u64,
}

/// The kernel, its translation tables, and the hardware operations that it has asked for.
pub struct Machine {
    pub k: Kernel,
    pub tables: Vec<PageTable>,
    pub ops: Vec<HwOp>,
}

#[verifier::ext_equal]
pub struct MachineView {
    pub k: Kernel,
    pub tables: Seq<TableView>,
    pub ops: Seq<HwOp>,
}

impl View for Machine {
    type V = MachineView;

    open spec fn view(&self) -> MachineView {
        MachineView {
            k: self.k,
            tables: self.tables@.map_values(|t: PageTable| t@),
            ops: self.ops@,
        }
    }
}

/// What an entry into the kernel knows about the processor that makes it.
#[derive(Clone, Copy)]
#[verifier::ext_equal]
pub struct Entry {
    /// Logical number of the processor.
    pub cpu: usize,
    /// The system counter, sampled on entry.
    pub now: u64,
    /// The message in the IPC buffer of the thread that was running.
    pub message: IpcMessage,
    /// The configuration that the second argument of a call to make a thread in another address
    /// space points to. It counts only if the caller may read it there.
    pub config: ThreadCreateConfig,
}

/// Where the processor goes when the kernel is left.
#[derive(Clone, Copy, Debug, PartialEq, Eq, Structural)]
pub enum Dispatch {
    /// Back to the frame that was interrupted.
    Return,
    /// To the saved context of this thread slot.
    Switch(usize),
    /// Nothing can run: wait for an event, then look again.
    Wait,
    /// The task is over with this exit code; its resources are to be taken back.
    Exit(u64),
    /// This processor is to stop for good: the task is being taken down.
    Park,
    /// The kernel cannot go on.
    Halt,
}

/// Why the kernel cannot go on.
#[derive(Clone, Copy, Debug, PartialEq, Eq, Structural)]
pub enum Fault {
    /// The table of free ranges overflowed.
    RangeTableFull,
    /// No page was left for a translation table.
    NoTableMemory,
    /// A page was to be mapped where a block is mapped.
    BlockInTheWay,
}

pub open spec fn tables_ok(tables: Seq<TableView>) -> bool {
    forall|i: int| 0 <= i < tables.len() ==> (#[trigger] tables[i]).wf()
}

impl MachineView {
    pub open spec fn wf(self) -> bool {
        &&& self.k.threads.wf()
        &&& self.k.smp.wf()
        &&& self.k.ipc.wf()
        &&& self.k.task.wf()
        &&& self.k.mem.wf()
        &&& self.k.protect.wf()
        &&& self.k.spaces.wf()
        &&& crate::memory::frame::frames_ok(self.k.frames)
        &&& tables_ok(self.tables)
    }

    /// The same state with one more hardware operation.
    pub open spec fn op(self, op: HwOp) -> MachineView {
        MachineView { ops: self.ops.push(op), ..self }
    }

    pub open spec fn with_ops(self, more: Seq<HwOp>) -> MachineView {
        MachineView { ops: self.ops + more, ..self }
    }

    pub open spec fn with_mem(self, mem: PhysicalMemory) -> MachineView {
        MachineView { k: Kernel { mem, ..self.k }, ..self }
    }

    pub open spec fn with_threads(self, threads: ThreadTable) -> MachineView {
        MachineView { k: Kernel { threads, ..self.k }, ..self }
    }

    pub open spec fn with_sched(self, sched: Scheduler) -> MachineView {
        MachineView { k: Kernel { sched, ..self.k }, ..self }
    }

    pub open spec fn with_ipc(self, ipc: Ipc) -> MachineView {
        MachineView { k: Kernel { ipc, ..self.k }, ..self }
    }

    pub open spec fn with_task(self, task: TaskResources) -> MachineView {
        MachineView { k: Kernel { task, ..self.k }, ..self }
    }

    pub open spec fn with_frames(self, frames: [FrameEntry; 64]) -> MachineView {
        MachineView { k: Kernel { frames, ..self.k }, ..self }
    }

    pub open spec fn with_spaces(self, spaces: VSpaces) -> MachineView {
        MachineView { k: Kernel { spaces, ..self.k }, ..self }
    }
}

/// No frame, mapping, address space, communication object or thread exists, nothing is ready to
/// run, and no memory is known.
pub open spec fn unused(k: Kernel) -> bool {
    &&& k.mem.count == 0
    &&& k.mem.disjoint()
    &&& forall|i: int| 0 <= i < 64 ==> (#[trigger] k.frames@[i]) == FrameEntry::empty(1)
    &&& k.spaces.device_count == 0
    &&& forall|i: int| 0 <= i < 8 ==> (#[trigger] k.spaces.spaces@[i]) == VSpaceEntry::empty(1)
    &&& forall|i: int|
        0 <= i < 128 ==> (#[trigger] k.spaces.mappings@[i]) == MappingEntry::empty(1)
    &&& forall|i: int| 0 <= i < 4 ==> (#[trigger] k.spaces.current@[i]) == 0
    &&& forall|i: int| 0 <= i < 16 ==> (#[trigger] k.ipc.endpoints@[i]) == Endpoint::unused(1)
    &&& forall|i: int|
        0 <= i < 32 ==> (#[trigger] k.ipc.notifications@[i]) == Notification::unused(1)
    &&& forall|i: int| 0 <= i < 16 ==> (#[trigger] k.ipc.replies@[i]) == Reply::unused(1)
    &&& k.sched.ready_sequence == 1
    &&& forall|i: int|
        0 <= i < 4 ==> (#[trigger] k.sched.cpus@[i]) == (CpuScheduler {
            ready_bitmap: 0,
            active_start: 0,
            initialized: false,
        })
    &&& !k.threads.initialized
    &&& forall|i: int|
        0 <= i < 16 ==> (#[trigger] k.threads.slots@[i]) == Thread::empty(1, ThreadState::Free)
    &&& forall|i: int| 0 <= i < 4 ==> (#[trigger] k.threads.current@[i]) == thread::NONE
}

/// A kernel that has been told nothing yet, on one processor.
pub fn new_machine() -> (r: Machine)
    ensures
        r@.wf(),
        r@.ops == Seq::<HwOp>::empty(),
        r@.tables == Seq::<TableView>::empty(),
        r@.k.active_table == 0,
        r@.k.task == TaskResources::none(),
        r@.k.protect.count == 0,
        r@.k.protect.denied_count == 0,
        r@.k.smp == (Smp { cpu_count: 1, online_mask: 1, stopped_mask: 0 }),
        r@.k.timer == (Timer { intid: 0, ticks_per_slice: 0, use_virtual: false }),
        r@.k.gic == (Gic { dist_base: 0, cpu_base: 0 }),
        unused(r@.k),
{
    let r = Machine {
        k: Kernel {
            threads: crate::object::thread::empty_thread_table(),
            sched: crate::scheduler::priority::empty_scheduler(),
            timer: Timer { intid: 0, ticks_per_slice: 0, use_virtual: false },
            smp: Smp { cpu_count: 1, online_mask: 1, stopped_mask: 0 },
            gic: Gic { dist_base: 0, cpu_base: 0 },
            ipc: crate::object::ipc::empty_ipc(),
            task: crate::object::task::no_task(),
            frames: crate::memory::frame::empty_frames(),
            spaces: crate::memory::vspace::empty_vspaces(),
            mem: crate::memory::physical::empty_memory(),
            protect: crate::resource::protect::empty_protect_table(),
            active_table: 0,
        },
        tables: Vec::new(),
        ops: Vec::new(),
    };
    assert(r@.tables =~= Seq::<TableView>::empty());
    r
}

} // verus!
