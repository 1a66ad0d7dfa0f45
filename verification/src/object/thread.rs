//! Threads: their saved contexts and their life cycle.
use crate::abi;
use crate::abi::IpcMessage;
use crate::abi::ThreadCreateConfig;
use crate::handle::{decode_handle, make_handle, next_generation};
use crate::hw::HwOp;
use crate::machine::{Dispatch, Entry, Fault, Kernel, Machine, MachineView};
use crate::memory::{mmu, physical, vspace};
use crate::memory::physical::PhysicalMemory;
use crate::object::{ipc, task};
use crate::scheduler::priority;
use crate::syscall::dispatch::TrapFrame;
use crate::util::ArrayUpdate;
use vstd::prelude::*;

verus! {

pub const MAX_THREADS: usize = 16;

/// Marks "no thread" in a processor's current slot, and "no processor" in a thread.
pub const NONE: u8 = 0xff;

#[derive(Clone, Copy, Debug, PartialEq, Eq, Structural)]
pub enum ThreadState {
    Free,
    Ready,
    Running,
    Blocked,
    /// Created, but not yet among the threads that can run.
    Suspended,
    Exited,
}

#[derive(Clone, Copy)]
#[verifier::ext_equal]
pub struct Thread {
    pub generation: u32,
    /// The resource owner on whose behalf the thread runs; zero for an unused slot.
    pub owner: u32,
    /// The owner that created the thread and may start, suspend and destroy it.
    pub creator_owner: u32,
    pub vspace_handle: u64,
    pub vspace_root: u64,
    pub state: ThreadState,
    pub context: TrapFrame,
    pub stack_pa: u64,
    pub stack_pages: u64,
    pub stack_va: u64,
    pub ipc_pa: u64,
    pub ipc_va: u64,
    pub affinity_cpu: u8,
    pub base_priority: u8,
    pub effective_priority: u8,
    /// The highest priority that the thread may give to a thread.
    pub max_control_priority: u8,
    pub running_cpu: u8,
    /// Position in the first-come order among ready threads of one priority.
    pub ready_sequence: u64,
    pub runtime_ticks: u64,
}

#[derive(Clone, Copy)]
#[verifier::ext_equal]
pub struct ThreadTable {
    pub slots: [Thread; 16],
    /// The slot that each processor runs.
    pub current: [u8; 4],
    pub initialized: bool,
}

impl Thread {
    /// An unused slot.
    pub open spec fn empty(generation: u32, state: ThreadState) -> Thread {
        Thread {
            generation,
            owner: 0,
            creator_owner: 0,
            vspace_handle: 0,
            vspace_root: 0,
            state,
            context: TrapFrame::zeroed(),
            stack_pa: 0,
            stack_pages: 0,
            stack_va: 0,
            ipc_pa: 0,
            ipc_va: 0,
            affinity_cpu: 0,
            base_priority: 0,
            effective_priority: 0,
            max_control_priority: 0,
            running_cpu: NONE,
            ready_sequence: 0,
            runtime_ticks: 0,
        }
    }

    /// The slot holds a thread that has neither exited nor been destroyed.
    pub open spec fn live(self) -> bool {
        self.state != ThreadState::Free && self.state != ThreadState::Exited
    }

    pub open spec fn wf(self) -> bool {
        &&& crate::handle::generation_ok(self.generation)
        &&& self.affinity_cpu < 4
        &&& self.base_priority <= 63
        &&& self.effective_priority <= 63
        &&& crate::memory::physical::PhysicalMemory::returnable(self.stack_pa, self.stack_pages)
        &&& self.stack_va + self.stack_pages * 4096 <= u64::MAX
        &&& self.ipc_pa != 0 ==> crate::memory::physical::PhysicalMemory::returnable(self.ipc_pa, 1)
        &&& self.ipc_va <= u64::MAX - 4096
    }
}

impl ThreadTable {
    pub open spec fn wf(self) -> bool {
        forall|i: int| 0 <= i < 16 ==> (#[trigger] self.slots@[i]).wf()
    }

    pub open spec fn with(self, slot: int, thread: Thread) -> ThreadTable {
        ThreadTable { slots: self.slots.upd(slot, thread), ..self }
    }

    /// A thread runs on processor `cpu`.
    pub open spec fn runs(self, cpu: int) -> bool {
        0 <= cpu < 4 && self.current@[cpu] < 16
    }

    /// The live thread of `owner` that `handle` names.
    pub open spec fn resolve(self, owner: u32, handle: u64) -> Result<int, u64> {
        match crate::handle::decoded(handle, 16) {
            None => Err(abi::SYS_ERR_INVALID),
            Some(found) => {
                let thread = self.slots@[found.0];
                if thread.owner != owner || thread.generation != found.1 || !thread.live() {
                    Err(abi::SYS_ERR_NOT_FOUND)
                } else {
                    Ok(found.0)
                }
            },
        }
    }

    /// The live thread created by `creator` that `handle` names.
    pub open spec fn resolve_control(self, creator: u32, handle: u64) -> Result<int, u64> {
        match crate::handle::decoded(handle, 16) {
            None => Err(abi::SYS_ERR_INVALID),
            Some(found) => {
                let thread = self.slots@[found.0];
                if thread.creator_owner != creator || thread.generation != found.1
                    || !thread.live() {
                    Err(abi::SYS_ERR_NOT_FOUND)
                } else {
                    Ok(found.0)
                }
            },
        }
    }
}

/// Where the stack that thread creation makes for `slot` begins.
pub open spec fn stack_base_of(slot: int) -> int {
    abi::THREAD_STACK_ARENA_BASE + slot * 64 * 4096
}

/// Where the IPC buffer of `slot` is mapped.
pub open spec fn ipc_va_of(slot: int) -> int {
    abi::THREAD_IPC_BUFFER_BASE + slot * 4096
}

pub(crate) fn stack_base(slot: usize) -> (r: u64)
    requires
        slot < 16,
    ensures
        r == stack_base_of(slot as int),
{
    abi::THREAD_STACK_ARENA_BASE + slot as u64 * 64 * 4096
}

pub(crate) fn ipc_va(slot: usize) -> (r: u64)
    requires
        slot < 16,
    ensures
        r == ipc_va_of(slot as int),
{
    abi::THREAD_IPC_BUFFER_BASE + slot as u64 * 4096
}

pub(crate) fn empty_thread(generation: u32, state: ThreadState) -> (r: Thread)
    ensures
        r == Thread::empty(generation, state),
{
    Thread {
        generation,
        owner: 0,
        creator_owner: 0,
        vspace_handle: 0,
        vspace_root: 0,
        state,
        context: TrapFrame::zero(),
        stack_pa: 0,
        stack_pages: 0,
        stack_va: 0,
        ipc_pa: 0,
        ipc_va: 0,
        affinity_cpu: 0,
        base_priority: 0,
        effective_priority: 0,
        max_control_priority: 0,
        running_cpu: NONE,
        ready_sequence: 0,
        runtime_ticks: 0,
    }
}

pub fn empty_thread_table() -> (r: ThreadTable)
    ensures
        r.wf(),
        !r.initialized,
        forall|i: int| 0 <= i < 16 ==> r.slots@[i] == Thread::empty(1, ThreadState::Free),
        forall|i: int| 0 <= i < 4 ==> r.current@[i] == NONE,
{
    let empty: Thread = empty_thread(1, ThreadState::Free);
    ThreadTable { slots: [empty; 16], current: [NONE; 4], initialized: false }
}

pub fn is_initialized(threads: &ThreadTable) -> (r: bool)
    ensures
        r == threads.initialized,
{
    threads.initialized
}

/// The slot that processor `cpu` runs; 255 when it runs none.
pub fn current_slot(threads: &ThreadTable, cpu: usize) -> (r: usize)
    requires
        cpu < 4,
    ensures
        r == threads.current@[cpu as int],
{
    threads.current[cpu] as usize
}

/// The slot that processor `cpu` runs, for any number `cpu`.
pub fn current_slot_on(threads: &ThreadTable, cpu: usize) -> (r: usize)
    ensures
        r == if cpu < 4 {
            threads.current@[cpu as int] as usize
        } else {
            usize::MAX
        },
{
    if cpu >= abi::MAX_CPUS {
        return usize::MAX;
    }
    threads.current[cpu] as usize
}

/// The resource owner of the thread that processor `cpu` runs; zero without one.
pub fn owner_of_current(threads: &ThreadTable, cpu: usize) -> (r: u32)
    requires
        cpu < 4,
    ensures
        r == if threads.initialized && threads.runs(cpu as int) {
            threads.slots@[threads.current@[cpu as int] as int].owner
        } else {
            0
        },
{
    if !is_initialized(threads) {
        return 0;
    }
    let slot: usize = current_slot(threads, cpu);
    if slot >= MAX_THREADS {
        return 0;
    }
    threads.slots[slot].owner
}

fn is_live(state: ThreadState) -> (r: bool)
    ensures
        r == (state != ThreadState::Free && state != ThreadState::Exited),
{
    match state {
        ThreadState::Free => false,
        ThreadState::Exited => false,
        _ => true,
    }
}

/// Finds the live thread of `owner` that `handle` names.
pub fn resolve_handle(threads: &ThreadTable, owner: u32, handle: u64) -> (r: Result<usize, u64>)
    ensures
        match r {
            Ok(slot) => slot < 16 && threads.resolve(owner, handle) == Ok::<int, u64>(slot as int),
            Err(error) => threads.resolve(owner, handle) == Err::<int, u64>(error),
        },
{
    match decode_handle(handle, MAX_THREADS) {
        None => Err(abi::SYS_ERR_INVALID),
        Some(found) => {
            let thread: &Thread = &threads.slots[found.0];
            if thread.owner != owner || thread.generation != found.1 || !is_live(thread.state) {
                return Err(abi::SYS_ERR_NOT_FOUND);
            }
            Ok(found.0)
        },
    }
}

/// Finds the live thread created by `creator` that `handle` names.
pub(crate) fn resolve_control_handle(threads: &ThreadTable, creator: u32, handle: u64) -> (r:
    Result<usize, u64>)
    ensures
        match r {
            Ok(slot) => slot < 16 && threads.resolve_control(creator, handle) == Ok::<int, u64>(
                slot as int,
            ),
            Err(error) => threads.resolve_control(creator, handle) == Err::<int, u64>(error),
        },
{
    match decode_handle(handle, MAX_THREADS) {
        None => Err(abi::SYS_ERR_INVALID),
        Some(found) => {
            let thread: &Thread = &threads.slots[found.0];
            if thread.creator_owner != creator || thread.generation != found.1 || !is_live(
                thread.state,
            ) {
                return Err(abi::SYS_ERR_NOT_FOUND);
            }
            Ok(found.0)
        },
    }
}

pub fn is_ready(threads: &ThreadTable, slot: usize) -> (r: bool)
    ensures
        r == (slot < 16 && threads.slots@[slot as int].state == ThreadState::Ready),
{
    slot < MAX_THREADS && threads.slots[slot].state == ThreadState::Ready
}

pub fn is_running(threads: &ThreadTable, slot: usize) -> (r: bool)
    ensures
        r == (slot < 16 && threads.slots@[slot as int].state == ThreadState::Running),
{
    slot < MAX_THREADS && threads.slots[slot].state == ThreadState::Running
}

/// Where the IPC buffer of the thread that processor `cpu` runs is mapped.
pub fn current_ipc_va(threads: &ThreadTable, cpu: usize) -> (r: u64)
    requires
        threads.runs(cpu as int),
    ensures
        r == threads.slots@[threads.current@[cpu as int] as int].ipc_va,
{
    threads.slots[current_slot(threads, cpu)].ipc_va
}

/// The message that the running thread had in its IPC buffer on entry.
pub fn current_message(cx: &Entry) -> (r: IpcMessage)
    ensures
        r == cx.message,
{
    cx.message
}

impl MachineView {
    /// A message goes into the IPC buffer of `slot`.
    pub open spec fn write_message(self, slot: int, message: IpcMessage) -> MachineView {
        self.op(HwOp::WriteMessage { va: self.k.threads.slots@[slot].ipc_va, message })
    }

    /// The interrupted registers become the saved context of the running thread.
    pub open spec fn save_current(self, cpu: int, frame: TrapFrame) -> MachineView {
        let threads = self.k.threads;
        if threads.initialized && threads.runs(cpu) && threads.slots@[threads.current@[cpu] as int].state
            != ThreadState::Free {
            let slot = threads.current@[cpu] as int;
            self.with_threads(threads.with(slot, Thread { context: frame, ..threads.slots@[slot] }))
        } else {
            self
        }
    }
}

/// Puts a message into the IPC buffer of `slot`.
pub fn write_message(m: &mut Machine, slot: usize, message: IpcMessage)
    requires
        slot < 16,
    ensures
        final(m)@ == old(m)@.write_message(slot as int, message),
        old(m)@.wf() ==> final(m)@.wf(),
        final(m)@.k.threads.current == old(m)@.k.threads.current,
{
    let va: u64 = m.k.threads.slots[slot].ipc_va;
    m.ops.push(HwOp::WriteMessage { va, message });
}

/// Saves the interrupted registers in the running thread, if there is one.
pub fn save_current(m: &mut Machine, cx: &Entry, frame: &TrapFrame)
    requires
        cx.cpu < 4,
    ensures
        final(m)@ == old(m)@.save_current(cx.cpu as int, *frame),
        old(m)@.wf() ==> final(m)@.wf(),
{
    let current: usize = current_slot(&m.k.threads, cx.cpu);
    if m.k.threads.initialized && current < MAX_THREADS && m.k.threads.slots[current].state
        != ThreadState::Free {
        assert(m@.wf() ==> m.k.threads.slots@[current as int].wf());
        m.k.threads.slots[current].context = *frame;
    }
}

pub fn affinity(threads: &ThreadTable, slot: usize) -> (r: usize)
    requires
        slot < 16,
    ensures
        r == threads.slots@[slot as int].affinity_cpu,
{
    threads.slots[slot].affinity_cpu as usize
}

pub fn effective_priority(threads: &ThreadTable, slot: usize) -> (r: u8)
    requires
        slot < 16,
    ensures
        r == threads.slots@[slot as int].effective_priority,
{
    threads.slots[slot].effective_priority
}

pub fn base_priority(threads: &ThreadTable, slot: usize) -> (r: u8)
    requires
        slot < 16,
    ensures
        r == threads.slots@[slot as int].base_priority,
{
    threads.slots[slot].base_priority
}

pub fn ready_sequence(threads: &ThreadTable, slot: usize) -> (r: u64)
    requires
        slot < 16,
    ensures
        r == threads.slots@[slot as int].ready_sequence,
{
    threads.slots[slot].ready_sequence
}

pub fn set_ready_sequence(threads: &mut ThreadTable, slot: usize, sequence: u64)
    requires
        slot < 16,
    ensures
        *final(threads) == old(threads).with(
            slot as int,
            Thread { ready_sequence: sequence, ..old(threads).slots@[slot as int] },
        ),
{
    threads.slots[slot].ready_sequence = sequence;
}

pub fn set_effective_priority(threads: &mut ThreadTable, slot: usize, priority: u8)
    requires
        slot < 16,
    ensures
        *final(threads) == old(threads).with(
            slot as int,
            Thread { effective_priority: priority, ..old(threads).slots@[slot as int] },
        ),
{
    threads.slots[slot].effective_priority = priority;
}

/// The processor that runs the thread; 255 while none does.
pub fn running_cpu(threads: &ThreadTable, slot: usize) -> (r: usize)
    requires
        slot < 16,
    ensures
        r == threads.slots@[slot as int].running_cpu,
{
    threads.slots[slot].running_cpu as usize
}

/// The saved program counter. It is never zero in a context that can run.
pub fn saved_pc(threads: &ThreadTable, slot: usize) -> (r: u64)
    requires
        slot < 16,
    ensures
        r == threads.slots@[slot as int].context.elr_el1,
{
    threads.slots[slot].context.elr_el1
}

/// The effective priority of the thread that processor `cpu` runs.
pub fn current_priority(threads: &ThreadTable, cpu: usize) -> (r: u8)
    requires
        threads.runs(cpu as int),
    ensures
        r == threads.slots@[threads.current@[cpu as int] as int].effective_priority,
{
    effective_priority(threads, current_slot(threads, cpu))
}

/// Adds processor time to a thread; the count wraps.
pub fn charge(threads: &mut ThreadTable, slot: usize, ticks: u64)
    requires
        slot < 16,
    ensures
        *final(threads) == old(threads).with(
            slot as int,
            Thread {
                runtime_ticks: old(threads).slots@[slot as int].runtime_ticks.wrapping_add(ticks),
                ..old(threads).slots@[slot as int]
            },
        ),
{
    let before: u64 = threads.slots[slot].runtime_ticks;
    threads.slots[slot].runtime_ticks = before.wrapping_add(ticks);
}

/// Makes thread `slot` the running thread of this processor. Halts if its address space is gone.
pub fn activate(m: &mut Machine, cx: &Entry, slot: usize) -> (r: Dispatch)
    requires
        old(m)@.wf(),
        cx.cpu < 4,
        slot < 16,
    ensures
        (final(m)@, r) == old(m)@.thread_activate(*cx, slot as int),
        final(m)@.wf(),
{
    assert(m.k.threads.slots@[slot as int].wf());
    let handle: u64 = m.k.threads.slots[slot].vspace_handle;
    if vspace::switch_to(m, cx, handle).is_err() {
        return Dispatch::Halt;
    }
    m.k.threads.slots[slot].state = ThreadState::Running;
    m.k.threads.slots[slot].running_cpu = cx.cpu as u8;
    m.k.threads.current[cx.cpu] = slot as u8;
    assert(m@ =~= old(m)@.thread_activate(*cx, slot as int).0);
    Dispatch::Switch(slot)
}

fn leave(m: &mut Machine, cx: &Entry, frame: &TrapFrame, state: ThreadState)
    requires
        old(m)@.wf(),
        old(m)@.k.threads.runs(cx.cpu as int),
    ensures
        final(m)@ == old(m)@.leave(*cx, *frame, state),
        final(m)@.wf(),
        final(m)@.k.threads.current == old(m)@.k.threads.current,
{
    save_current(m, cx, frame);
    let current: usize = current_slot(&m.k.threads, cx.cpu);
    assert(m.k.threads.slots@[current as int].wf());
    m.k.threads.slots[current].state = state;
    m.k.threads.slots[current].running_cpu = NONE;
    assert(m@ =~= old(m)@.leave(*cx, *frame, state));
}

/// The running thread stays ready and goes to the end of its queue.
pub fn make_current_ready(m: &mut Machine, cx: &Entry, frame: &TrapFrame)
    requires
        old(m)@.wf(),
        old(m)@.k.threads.runs(cx.cpu as int),
    ensures
        final(m)@ == old(m)@.make_current_ready(*cx, *frame),
        final(m)@.wf(),
{
    leave(m, cx, frame, ThreadState::Ready);
    let current: usize = current_slot(&m.k.threads, cx.cpu);
    priority::on_thread_ready(m, cx, current);
}

/// The running thread waits until it is woken.
pub fn make_current_blocked(m: &mut Machine, cx: &Entry, frame: &TrapFrame)
    requires
        old(m)@.wf(),
        old(m)@.k.threads.runs(cx.cpu as int),
    ensures
        final(m)@ == old(m)@.leave(*cx, *frame, ThreadState::Blocked),
        final(m)@.wf(),
{
    leave(m, cx, frame, ThreadState::Blocked);
}

/// The running thread gives the rest of its turn away.
pub fn yield_current(m: &mut Machine, cx: &Entry, frame: &TrapFrame) -> (r: Dispatch)
    requires
        old(m)@.wf(),
        old(m)@.k.threads.runs(cx.cpu as int),
    ensures
        (final(m)@, r) == old(m)@.yield_current(*cx, *frame),
        final(m)@.wf(),
{
    priority::yield_current(m, cx, frame)
}

impl MachineView {
    /// A blocked thread becomes ready with `value` as the result of its system call; any other
    /// thread is left as it is.
    pub open spec fn wake(self, cx: Entry, slot: int, value: u64) -> MachineView {
        let thread = self.k.threads.slots@[slot];
        if !(0 <= slot < 16) || thread.state != ThreadState::Blocked {
            self
        } else {
            self.with_threads(
                self.k.threads.with(
                    slot,
                    Thread {
                        context: thread.context.with_result(value),
                        state: ThreadState::Ready,
                        running_cpu: NONE,
                        ..thread
                    },
                ),
            ).thread_ready(cx, slot)
        }
    }
}

/// Makes a blocked thread ready; its system call returns `return_value`.
pub fn wake(m: &mut Machine, cx: &Entry, slot: usize, return_value: u64)
    requires
        old(m)@.wf(),
        cx.cpu < 4,
    ensures
        final(m)@ == old(m)@.wake(*cx, slot as int, return_value),
        final(m)@.wf(),
        final(m)@.k.threads.current == old(m)@.k.threads.current,
{
    if slot >= MAX_THREADS || m.k.threads.slots[slot].state != ThreadState::Blocked {
        return;
    }
    assert(m.k.threads.slots@[slot as int].wf());
    m.k.threads.slots[slot].context.x[0] = return_value;
    m.k.threads.slots[slot].state = ThreadState::Ready;
    m.k.threads.slots[slot].running_cpu = NONE;
    proof {
        let thread = old(m)@.k.threads.slots@[slot as int];
        assert(m@ =~= old(m)@.with_threads(
            old(m)@.k.threads.with(
                slot as int,
                Thread {
                    context: thread.context.with_result(return_value),
                    state: ThreadState::Ready,
                    running_cpu: NONE,
                    ..thread
                },
            ),
        ));
    }
    priority::on_thread_ready(m, cx, slot);
}

impl ThreadTable {
    /// The first slot at place `from` or later that a new thread can take.
    pub open spec fn free_slot(self, from: int) -> Option<int>
        decreases 16 - from,
    {
        if from < 0 || from >= 16 {
            None
        } else if !self.slots@[from].live() {
            Some(from)
        } else {
            self.free_slot(from + 1)
        }
    }

    /// A thread that `creator` made is still live.
    pub open spec fn has_live(self, creator: u32) -> bool {
        exists|i: int|
            0 <= i < 16 && (#[trigger] self.slots@[i]).creator_owner == creator
                && self.slots@[i].live()
    }
}

impl MachineView {
    /// Runs of pages go back; a fault if the table of free ranges overflows.
    pub open spec fn released(self, runs: Seq<(u64, u64)>) -> (MachineView, Option<Fault>) {
        let (mem, full) = self.k.mem.freed_runs(runs, runs.len() as int);
        (
            self.with_mem(mem),
            if full {
                Some(Fault::RangeTableFull)
            } else {
                None
            },
        )
    }

    /// A call that failed after it had taken pages gives them back and returns `code`.
    pub open spec fn fail(self, runs: Seq<(u64, u64)>, code: u64) -> (
        MachineView,
        Result<u64, Fault>,
    ) {
        let (s, fault) = self.released(runs);
        match fault {
            Some(fault) => (s, Err(fault)),
            None => (s, Ok(code)),
        }
    }

    /// What a call creates a thread from is acceptable.
    pub open spec fn thread_request_ok(self, cpu: u64, priority: u64, mcp: u64) -> bool {
        cpu < self.k.smp.cpu_count && priority <= mcp <= 63
    }

    /// A thread with its own stack and IPC buffer is made in the current address space.
    pub open spec fn thread_create(
        self,
        cx: Entry,
        entry: u64,
        arg: u64,
        cpu: u64,
        priority: u64,
        mcp: u64,
    ) -> (MachineView, Result<u64, Fault>) {
        let root = self.k.active_table;
        if !self.k.threads.initialized || !self.thread_request_ok(cpu, priority, mcp) {
            (self, Ok(abi::SYS_ERR_INVALID))
        } else if !self.user_executable(root, entry as int) {
            (self, Ok(abi::SYS_ERR_DENIED))
        } else {
            match self.k.threads.free_slot(1) {
                None => (self, Ok(abi::SYS_ERR_NO_SLOT)),
                Some(slot) => {
                    let (mem, stack) = self.k.mem.pages_alloc(64);
                    let s = self.with_mem(mem);
                    match stack {
                        None => (s, Ok(abi::SYS_ERR_NO_MEMORY)),
                        Some(stack_pa) => {
                            let (mem2, page) = s.k.mem.page_alloc();
                            let t = s.with_mem(mem2);
                            match page {
                                None => t.fail(
                                    seq![(stack_pa, 64u64)],
                                    abi::SYS_ERR_NO_MEMORY,
                                ),
                                Some(ipc_pa) => t.op(
                                    HwOp::Zero { pa: stack_pa, bytes: 0x4_0000 },
                                ).op(HwOp::Zero { pa: ipc_pa, bytes: 4096 }).thread_create_mapped(
                                    cx,
                                    slot,
                                    stack_pa,
                                    ipc_pa,
                                    entry,
                                    arg,
                                    cpu,
                                    priority,
                                    mcp,
                                ),
                            }
                        },
                    }
                },
            }
        }
    }

    /// The second half of making a thread: its pages are mapped and it becomes ready.
    pub open spec fn thread_create_mapped(
        self,
        cx: Entry,
        slot: int,
        stack_pa: u64,
        ipc_pa: u64,
        entry: u64,
        arg: u64,
        cpu: u64,
        priority: u64,
        mcp: u64,
    ) -> (MachineView, Result<u64, Fault>) {
        let root = self.k.active_table;
        let stack_va = stack_base_of(slot);
        let ipc_va = ipc_va_of(slot);
        let pages = seq![(stack_pa, 64u64), (ipc_pa, 1u64)];
        let (s, no_stack) = self.map_checked(
            root,
            stack_va,
            stack_pa as int,
            mmu::MMU_USER_RW,
            64,
        );
        if no_stack is Some {
            s.fail(pages, abi::SYS_ERR_CONFLICT)
        } else {
            let (t, no_ipc) = s.map_checked(root, ipc_va, ipc_pa as int, mmu::MMU_USER_RW, 1);
            if no_ipc is Some {
                t.unmap_run(root, stack_va, 64).0.op(HwOp::FlushTlb).fail(
                    pages,
                    abi::SYS_ERR_CONFLICT,
                )
            } else {
                let handle = t.k.spaces.handle_on(cx.cpu);
                match t.k.spaces.find(handle) {
                    Ok(space) => if t.k.spaces.spaces@[space].active_thread_count == u16::MAX {
                        t.unmap_run(root, stack_va, 64).0.unmap_run(root, ipc_va, 1).0.op(
                            HwOp::FlushTlb,
                        ).fail(pages, abi::SYS_ERR_BUSY)
                    } else {
                        let u = t.with_spaces(t.k.spaces.thread_added(space));
                        let generation = u.k.threads.slots@[slot].generation;
                        let name = crate::handle::handle_of(slot, generation) as u64;
                        let zero = TrapFrame::zeroed();
                        (
                            u.with_threads(
                                u.k.threads.with(
                                    slot,
                                    Thread {
                                        generation,
                                        owner: u.k.task.owner(),
                                        creator_owner: u.k.task.owner(),
                                        vspace_handle: handle,
                                        vspace_root: root,
                                        state: ThreadState::Ready,
                                        context: TrapFrame {
                                            x: zero.x.upd(0, arg).upd(1, name).upd(
                                                2,
                                                ipc_va as u64,
                                            ),
                                            sp_el0: (stack_va + 0x4_0000) as u64,
                                            elr_el1: entry,
                                            ..zero
                                        },
                                        stack_pa,
                                        stack_pages: 64,
                                        stack_va: stack_va as u64,
                                        ipc_pa,
                                        ipc_va: ipc_va as u64,
                                        affinity_cpu: cpu as u8,
                                        base_priority: priority as u8,
                                        effective_priority: priority as u8,
                                        max_control_priority: mcp as u8,
                                        running_cpu: NONE,
                                        ready_sequence: 0,
                                        runtime_ticks: 0,
                                    },
                                ),
                            ).thread_ready(cx, slot),
                            Ok(name),
                        )
                    },
                    Err(_) => t.unmap_run(root, stack_va, 64).0.unmap_run(root, ipc_va, 1).0.op(
                        HwOp::FlushTlb,
                    ).fail(pages, abi::SYS_ERR_BUSY),
                }
            }
        }
    }

    /// A suspended thread is made in an address space that the caller created, with the entry
    /// point and stack that the caller prepared there.
    pub open spec fn thread_create_in(
        self,
        target: u64,
        config_va: u64,
        config: ThreadCreateConfig,
    ) -> (MachineView, Result<u64, Fault>) {
        let caller = self.k.task.owner();
        if caller == 0 || config_va % 8 != 0 || config_va + 40 > u64::MAX || !self.user_readable(
            self.k.active_table,
            config_va as int,
            40,
        ) {
            (self, Ok(abi::SYS_ERR_INVALID))
        } else if config.reserved != 0 || !self.thread_request_ok(
            config.cpu as u64,
            config.priority as u64,
            config.max_control_priority as u64,
        ) {
            (self, Ok(abi::SYS_ERR_INVALID))
        } else {
            match self.k.spaces.find_for(caller, target) {
                Err(_) => (self, Ok(abi::SYS_ERR_DENIED)),
                Ok(space) => {
                    let root = self.k.spaces.spaces@[space].root_pa;
                    if !self.user_executable(root, config.entry as int) || config.stack_pointer
                        < 4096 || !self.user_writable(root, config.stack_pointer - 1, 1) {
                        (self, Ok(abi::SYS_ERR_DENIED))
                    } else {
                        match self.k.threads.free_slot(1) {
                            None => (self, Ok(abi::SYS_ERR_NO_SLOT)),
                            Some(slot) => {
                                let (mem, page) = self.k.mem.page_alloc();
                                let s = self.with_mem(mem);
                                match page {
                                    None => (s, Ok(abi::SYS_ERR_NO_MEMORY)),
                                    Some(ipc_pa) => s.op(
                                        HwOp::Zero { pa: ipc_pa, bytes: 4096 },
                                    ).thread_create_in_mapped(
                                        slot,
                                        space,
                                        target,
                                        ipc_pa,
                                        config,
                                    ),
                                }
                            },
                        }
                    }
                },
            }
        }
    }

    /// The second half of making a thread in another address space.
    pub open spec fn thread_create_in_mapped(
        self,
        slot: int,
        space: int,
        target: u64,
        ipc_pa: u64,
        config: ThreadCreateConfig,
    ) -> (MachineView, Result<u64, Fault>) {
        let root = self.k.spaces.spaces@[space].root_pa;
        let ipc_va = ipc_va_of(slot);
        let pages = seq![(ipc_pa, 1u64)];
        let (s, no_ipc) = self.map_checked(root, ipc_va, ipc_pa as int, mmu::MMU_USER_RW, 1);
        if no_ipc is Some {
            s.fail(pages, abi::SYS_ERR_CONFLICT)
        } else if s.k.spaces.spaces@[space].active_thread_count == u16::MAX {
            s.unmap_run(root, ipc_va, 1).0.op(HwOp::FlushTlb).fail(pages, abi::SYS_ERR_BUSY)
        } else {
            let u = s.with_spaces(s.k.spaces.thread_added(space));
            let generation = u.k.threads.slots@[slot].generation;
            let name = crate::handle::handle_of(slot, generation) as u64;
            let zero = TrapFrame::zeroed();
            (
                u.with_threads(
                    u.k.threads.with(
                        slot,
                        Thread {
                            generation,
                            owner: u.k.task.owner(),
                            creator_owner: u.k.task.owner(),
                            vspace_handle: target,
                            vspace_root: root,
                            state: ThreadState::Suspended,
                            context: TrapFrame {
                                x: zero.x.upd(0, config.arg0).upd(1, config.arg1).upd(2, name).upd(
                                    3,
                                    ipc_va as u64,
                                ),
                                sp_el0: config.stack_pointer,
                                elr_el1: config.entry,
                                ..zero
                            },
                            stack_pa: 0,
                            stack_pages: 0,
                            stack_va: 0,
                            ipc_pa,
                            ipc_va: ipc_va as u64,
                            affinity_cpu: config.cpu,
                            base_priority: config.priority,
                            effective_priority: config.priority,
                            max_control_priority: config.max_control_priority,
                            running_cpu: NONE,
                            ready_sequence: 0,
                            runtime_ticks: 0,
                        },
                    ),
                ),
                Ok(name),
            )
        }
    }
}

fn release(m: &mut Machine, runs: Vec<(u64, u64)>) -> (r: Option<Fault>)
    requires
        old(m)@.wf(),
        forall|i: int|
            0 <= i < runs@.len() ==> PhysicalMemory::returnable(
                (#[trigger] runs@[i]).0,
                runs@[i].1,
            ),
    ensures
        (final(m)@, r) == old(m)@.released(runs@),
        final(m)@.wf(),
{
    match physical::free_runs(&mut m.k.mem, &runs) {
        Ok(()) => None,
        Err(_) => Some(Fault::RangeTableFull),
    }
}

pub(crate) fn fail(m: &mut Machine, runs: Vec<(u64, u64)>, code: u64) -> (r: Result<u64, Fault>)
    requires
        old(m)@.wf(),
        forall|i: int|
            0 <= i < runs@.len() ==> PhysicalMemory::returnable(
                (#[trigger] runs@[i]).0,
                runs@[i].1,
            ),
    ensures
        (final(m)@, r) == old(m)@.fail(runs@, code),
        final(m)@.wf(),
{
    match release(m, runs) {
        Some(fault) => Err(fault),
        None => Ok(code),
    }
}

fn find_free_slot(threads: &ThreadTable) -> (r: Option<usize>)
    ensures
        match r {
            Some(slot) => 1 <= slot < 16 && threads.free_slot(1) == Some(slot as int),
            None => threads.free_slot(1) is None,
        },
{
    let mut slot: usize = 1;
    while slot < MAX_THREADS
        invariant
            1 <= slot <= 16,
            threads.free_slot(1) == threads.free_slot(slot as int),
        decreases 16 - slot,
    {
        if !is_live(threads.slots[slot].state) {
            return Some(slot);
        }
        slot = slot + 1;
    }
    None
}

/// Makes a thread with its own stack and IPC buffer in the current address space; it is ready
/// at once. Everything that was taken is given back when a later step fails.
pub fn create(m: &mut Machine, cx: &Entry, entry: u64, arg: u64, cpu: u64, priority: u64, mcp: u64)
    -> (r: Result<u64, Fault>)
    requires
        old(m)@.wf(),
        cx.cpu < 4,
    ensures
        (final(m)@, r) == old(m)@.thread_create(*cx, entry, arg, cpu, priority, mcp),
        final(m)@.wf(),
{
    if !is_initialized(&m.k.threads) || cpu >= m.k.smp.cpu_count as u64 || priority
        > abi::MAX_THREAD_PRIORITY as u64 || mcp > abi::MAX_THREAD_PRIORITY as u64 || priority
        > mcp {
        return Ok(abi::SYS_ERR_INVALID);
    }
    let root: u64 = mmu::active_table(m);
    if !mmu::is_user_executable(m, root, entry) {
        return Ok(abi::SYS_ERR_DENIED);
    }
    let slot: usize = match find_free_slot(&m.k.threads) {
        None => {
            return Ok(abi::SYS_ERR_NO_SLOT);
        },
        Some(slot) => slot,
    };
    let stack_pa: u64 = match physical::alloc_pages(&mut m.k.mem, abi::THREAD_STACK_PAGES) {
        None => {
            return Ok(abi::SYS_ERR_NO_MEMORY);
        },
        Some(pa) => pa,
    };
    let ipc_pa: u64 = match physical::alloc_page(&mut m.k.mem) {
        None => {
            let runs: Vec<(u64, u64)> = vec![(stack_pa, 64u64)];
            assert(runs@ =~= seq![(stack_pa, 64u64)]);
            return fail(m, runs, abi::SYS_ERR_NO_MEMORY);
        },
        Some(pa) => pa,
    };
    m.ops.push(HwOp::Zero { pa: stack_pa, bytes: abi::THREAD_STACK_PAGES * abi::PAGE_SIZE });
    m.ops.push(HwOp::Zero { pa: ipc_pa, bytes: abi::PAGE_SIZE });
    create_mapped(m, cx, slot, stack_pa, ipc_pa, entry, arg, cpu, priority, mcp)
}

fn create_mapped(
    m: &mut Machine,
    cx: &Entry,
    slot: usize,
    stack_pa: u64,
    ipc_pa: u64,
    entry: u64,
    arg: u64,
    cpu: u64,
    priority: u64,
    mcp: u64,
) -> (r: Result<u64, Fault>)
    requires
        old(m)@.wf(),
        cx.cpu < 4,
        slot < 16,
        PhysicalMemory::returnable(stack_pa, 64),
        PhysicalMemory::returnable(ipc_pa, 1),
        old(m)@.thread_request_ok(cpu, priority, mcp),
    ensures
        (final(m)@, r) == old(m)@.thread_create_mapped(
            *cx,
            slot as int,
            stack_pa,
            ipc_pa,
            entry,
            arg,
            cpu,
            priority,
            mcp,
        ),
        final(m)@.wf(),
{
    let root: u64 = mmu::active_table(m);
    let stack_va: u64 = stack_base(slot);
    let ipc_at: u64 = ipc_va(slot);
    let pages: Vec<(u64, u64)> = vec![(stack_pa, 64u64), (ipc_pa, 1u64)];
    assert(pages@ =~= seq![(stack_pa, 64u64), (ipc_pa, 1u64)]);
    let ghost start = m@;
    proof {
        vspace::lemma_map_checked_frame(
            start,
            root,
            stack_va as int,
            stack_pa as int,
            mmu::MMU_USER_RW,
            64,
        );
    }
    if mmu::map_checked(m, root, stack_va, stack_pa, mmu::MMU_USER_RW, 64).is_err() {
        return fail(m, pages, abi::SYS_ERR_CONFLICT);
    }
    let ghost stacked = m@;
    proof {
        vspace::lemma_map_checked_frame(
            stacked,
            root,
            ipc_at as int,
            ipc_pa as int,
            mmu::MMU_USER_RW,
            1,
        );
    }
    if mmu::map_checked(m, root, ipc_at, ipc_pa, mmu::MMU_USER_RW, 1).is_err() {
        mmu::unmap(m, root, stack_va, 64);
        mmu::flush_el1_tlb_range(m, stack_va, 64);
        return fail(m, pages, abi::SYS_ERR_CONFLICT);
    }
    let vspace_handle: u64 = vspace::current_handle(&m.k.spaces, cx.cpu);
    if vspace::add_thread(&mut m.k.spaces, vspace_handle).is_err() {
        mmu::unmap(m, root, stack_va, 64);
        mmu::unmap(m, root, ipc_at, 1);
        mmu::flush_el1_tlb_range(m, stack_va, 64);
        return fail(m, pages, abi::SYS_ERR_BUSY);
    }
    assert(m.k.threads.slots@[slot as int].wf());
    let generation: u32 = m.k.threads.slots[slot].generation;
    let handle: u64 = make_handle(slot, generation);
    let mut context: TrapFrame = TrapFrame::zero();
    context.x[0] = arg;
    context.x[1] = handle;
    context.x[2] = ipc_at;
    context.sp_el0 = stack_va + 0x4_0000;
    context.elr_el1 = entry;
    let owner: u32 = task::current_owner(&m.k.task);
    m.k.threads.slots[slot] = Thread {
        generation,
        owner,
        creator_owner: owner,
        vspace_handle,
        vspace_root: root,
        state: ThreadState::Ready,
        context,
        stack_pa,
        stack_pages: 64,
        stack_va,
        ipc_pa,
        ipc_va: ipc_at,
        affinity_cpu: cpu as u8,
        base_priority: priority as u8,
        effective_priority: priority as u8,
        max_control_priority: mcp as u8,
        running_cpu: NONE,
        ready_sequence: 0,
        runtime_ticks: 0,
    };
    priority::on_thread_ready(m, cx, slot);
    Ok(handle)
}

/// Makes a suspended thread in an address space that the caller created. `config` is what the
/// caller's memory holds at `config_va`; it counts only if the caller may read it there.
pub fn create_in(m: &mut Machine, target_vspace: u64, config_va: u64, config: ThreadCreateConfig)
    -> (r: Result<u64, Fault>)
    requires
        old(m)@.wf(),
    ensures
        (final(m)@, r) == old(m)@.thread_create_in(target_vspace, config_va, config),
        final(m)@.wf(),
{
    let caller: u32 = task::current_owner(&m.k.task);
    let current_root: u64 = mmu::active_table(m);
    assert(config_va & 7 == config_va % 8) by (bit_vector);
    if caller == 0 || (config_va & 7) != 0 || !mmu::is_user_readable(
        m,
        current_root,
        config_va,
        abi::THREAD_CREATE_CONFIG_BYTES,
    ) {
        return Ok(abi::SYS_ERR_INVALID);
    }
    if config.reserved != 0 || config.cpu as usize >= m.k.smp.cpu_count || config.priority
        > abi::MAX_THREAD_PRIORITY || config.max_control_priority > abi::MAX_THREAD_PRIORITY
        || config.priority > config.max_control_priority {
        return Ok(abi::SYS_ERR_INVALID);
    }
    let target_root: u64 = match vspace::resolve_for_owner(&m.k.spaces, caller, target_vspace) {
        Err(_) => {
            return Ok(abi::SYS_ERR_DENIED);
        },
        Ok(found) => found.0,
    };
    let ghost space = m.k.spaces.find_for(caller, target_vspace)->Ok_0;
    if !mmu::is_user_executable(m, target_root, config.entry) || config.stack_pointer
        < abi::PAGE_SIZE || !mmu::is_user_writable(
        m,
        target_root,
        config.stack_pointer - 1,
        1,
    ) {
        return Ok(abi::SYS_ERR_DENIED);
    }
    let slot: usize = match find_free_slot(&m.k.threads) {
        None => {
            return Ok(abi::SYS_ERR_NO_SLOT);
        },
        Some(slot) => slot,
    };
    let ipc_pa: u64 = match physical::alloc_page(&mut m.k.mem) {
        None => {
            return Ok(abi::SYS_ERR_NO_MEMORY);
        },
        Some(pa) => pa,
    };
    m.ops.push(HwOp::Zero { pa: ipc_pa, bytes: abi::PAGE_SIZE });
    let target_ipc_va: u64 = ipc_va(slot);
    let pages: Vec<(u64, u64)> = vec![(ipc_pa, 1u64)];
    assert(pages@ =~= seq![(ipc_pa, 1u64)]);
    let ghost start = m@;
    proof {
        vspace::lemma_map_checked_frame(
            start,
            target_root,
            target_ipc_va as int,
            ipc_pa as int,
            mmu::MMU_USER_RW,
            1,
        );
    }
    if mmu::map_checked(m, target_root, target_ipc_va, ipc_pa, mmu::MMU_USER_RW, 1).is_err() {
        return fail(m, pages, abi::SYS_ERR_CONFLICT);
    }
    if vspace::add_thread(&mut m.k.spaces, target_vspace).is_err() {
        mmu::unmap(m, target_root, target_ipc_va, 1);
        mmu::flush_el1_tlb_range(m, target_ipc_va, 1);
        return fail(m, pages, abi::SYS_ERR_BUSY);
    }
    assert(m.k.threads.slots@[slot as int].wf());
    let generation: u32 = m.k.threads.slots[slot].generation;
    let handle: u64 = make_handle(slot, generation);
    let mut context: TrapFrame = TrapFrame::zero();
    context.x[0] = config.arg0;
    context.x[1] = config.arg1;
    context.x[2] = handle;
    context.x[3] = target_ipc_va;
    context.sp_el0 = config.stack_pointer;
    context.elr_el1 = config.entry;
    let owner: u32 = match vspace::resource_owner(&m.k.spaces, caller, target_vspace) {
        Ok(owner) => owner,
        Err(_) => caller,
    };
    m.k.threads.slots[slot] = Thread {
        generation,
        owner,
        creator_owner: caller,
        vspace_handle: target_vspace,
        vspace_root: target_root,
        state: ThreadState::Suspended,
        context,
        stack_pa: 0,
        stack_pages: 0,
        stack_va: 0,
        ipc_pa,
        ipc_va: target_ipc_va,
        affinity_cpu: config.cpu,
        base_priority: config.priority,
        effective_priority: config.priority,
        max_control_priority: config.max_control_priority,
        running_cpu: NONE,
        ready_sequence: 0,
        runtime_ticks: 0,
    };
    Ok(handle)
}

impl MachineView {
    /// The state of thread `slot` changes.
    pub open spec fn with_state(self, slot: int, state: ThreadState) -> MachineView {
        self.with_threads(
            self.k.threads.with(slot, Thread { state, ..self.k.threads.slots@[slot] }),
        )
    }

    pub open spec fn thread_start(self, cx: Entry, handle: u64) -> (MachineView, u64) {
        match self.k.threads.resolve_control(self.k.task.owner(), handle) {
            Err(_) => (self, abi::SYS_ERR_NOT_FOUND),
            Ok(slot) => if self.k.threads.slots@[slot].state != ThreadState::Suspended {
                (self, abi::SYS_ERR_BUSY)
            } else {
                (self.with_state(slot, ThreadState::Ready).thread_ready(cx, slot), 0)
            },
        }
    }

    pub open spec fn thread_suspend(self, handle: u64) -> (MachineView, u64) {
        match self.k.threads.resolve_control(self.k.task.owner(), handle) {
            Err(_) => (self, abi::SYS_ERR_NOT_FOUND),
            Ok(slot) => if self.k.threads.slots@[slot].state == ThreadState::Ready {
                (self.with_state(slot, ThreadState::Suspended), 0)
            } else if self.k.threads.slots@[slot].state == ThreadState::Suspended {
                (self, 0)
            } else {
                (self, abi::SYS_ERR_BUSY)
            },
        }
    }

    /// A run of pages is unmapped and goes back; nothing happens for an empty run.
    pub open spec fn drop_pages(self, root: u64, va: int, pa: u64, pages: u64) -> (
        MachineView,
        Option<Fault>,
    ) {
        if pages == 0 {
            (self, None)
        } else {
            self.unmap_run(root, va, pages as int).0.released(seq![(pa, pages)])
        }
    }

    /// The IPC buffer of a thread goes back, if it has one.
    pub open spec fn drop_ipc(self, root: u64, thread: Thread) -> (MachineView, Option<Fault>) {
        self.drop_pages(
            root,
            thread.ipc_va as int,
            thread.ipc_pa,
            if thread.ipc_pa != 0 {
                1
            } else {
                0
            },
        )
    }

    pub open spec fn thread_destroy(self, handle: u64) -> (MachineView, Result<u64, Fault>) {
        match self.k.threads.resolve_control(self.k.task.owner(), handle) {
            Err(_) => (self, Ok(abi::SYS_ERR_NOT_FOUND)),
            Ok(slot) => {
                let thread = self.k.threads.slots@[slot];
                if thread.state == ThreadState::Running || thread.state == ThreadState::Blocked {
                    (self, Ok(abi::SYS_ERR_BUSY))
                } else {
                    let (s, fault) = self.drop_ipc(thread.vspace_root, thread);
                    match fault {
                        Some(fault) => (s, Err(fault)),
                        None => {
                            let t = s.op(HwOp::FlushTlb);
                            (
                                t.with_spaces(
                                    t.k.spaces.thread_removed(thread.vspace_handle),
                                ).with_threads(
                                    t.k.threads.with(
                                        slot,
                                        Thread {
                                            running_cpu: thread.running_cpu,
                                            ready_sequence: thread.ready_sequence,
                                            runtime_ticks: thread.runtime_ticks,
                                            ..Thread::empty(
                                                crate::handle::generation_after(
                                                    thread.generation,
                                                ),
                                                ThreadState::Exited,
                                            )
                                        },
                                    ),
                                ),
                                Ok(0),
                            )
                        },
                    }
                }
            },
        }
    }

    /// The running thread ends. The next thread runs, unless no thread of the task is left.
    pub open spec fn thread_exit(self, cx: Entry, frame: TrapFrame) -> (
        MachineView,
        Result<Option<Dispatch>, Fault>,
    ) {
        let slot = self.k.threads.current@[cx.cpu as int] as int;
        let s = self.save_current(cx.cpu as int, frame).cancel_thread(cx, slot);
        let thread = s.k.threads.slots@[slot];
        let (t, lost) = s.drop_pages(
            thread.vspace_root,
            thread.stack_va as int,
            thread.stack_pa,
            thread.stack_pages,
        );
        if lost is Some {
            (t, Err(lost->0))
        } else {
            let (u, lost2) = t.drop_ipc(thread.vspace_root, thread);
            if lost2 is Some {
                (u, Err(lost2->0))
            } else {
                let v = u.with_spaces(u.k.spaces.thread_removed(thread.vspace_handle)).op(
                    HwOp::FlushTlb,
                );
                let w = v.with_threads(
                    v.k.threads.with(
                        slot,
                        Thread {
                            base_priority: thread.base_priority,
                            effective_priority: thread.effective_priority,
                            ready_sequence: thread.ready_sequence,
                            runtime_ticks: thread.runtime_ticks,
                            ..Thread::empty(
                                crate::handle::generation_after(thread.generation),
                                ThreadState::Exited,
                            )
                        },
                    ),
                );
                if w.k.threads.has_live(w.k.task.owner()) {
                    let (x, next) = w.schedule_after_block(cx);
                    (x, Ok(Some(next)))
                } else {
                    (w, Ok(None))
                }
            }
        }
    }

    /// Processor time that a thread has used up to now.
    pub open spec fn thread_runtime(self, cx: Entry, handle: u64) -> u64 {
        match self.k.threads.resolve(self.k.task.owner(), handle) {
            Err(error) => error,
            Ok(slot) => self.k.threads.slots@[slot].runtime_ticks.wrapping_add(
                self.active_runtime_ticks(cx.now, slot),
            ),
        }
    }

    pub open spec fn set_priority(self, cx: Entry, handle: u64, priority: u64) -> (
        MachineView,
        u64,
    ) {
        if priority > 63 {
            (self, abi::SYS_ERR_INVALID)
        } else {
            match self.k.threads.resolve(self.k.task.owner(), handle) {
                Err(error) => (self, error),
                Ok(slot) => {
                    let caller =
                        self.k.threads.slots@[self.k.threads.current@[cx.cpu as int] as int];
                    if priority > caller.max_control_priority {
                        (self, abi::SYS_ERR_DENIED)
                    } else {
                        (
                            self.with_threads(
                                self.k.threads.with(
                                    slot,
                                    Thread {
                                        base_priority: priority as u8,
                                        ..self.k.threads.slots@[slot]
                                    },
                                ),
                            ).recompute(cx).priority_changed(cx, slot),
                            0,
                        )
                    }
                },
            }
        }
    }

    /// Thread `slot` and its pages go when the task ends.
    pub open spec fn cleanup_slot(self, root: u64, slot: int) -> (MachineView, Option<Fault>) {
        let thread = self.k.threads.slots@[slot];
        let table = if thread.vspace_root > root {
            thread.vspace_root
        } else {
            root
        };
        if thread.owner == 0 {
            (self, None)
        } else {
            let (s, lost) = self.drop_pages(
                table,
                thread.stack_va as int,
                thread.stack_pa,
                thread.stack_pages,
            );
            if lost is Some {
                (s, lost)
            } else {
                let (t, lost2) = s.drop_ipc(table, thread);
                if lost2 is Some {
                    (t, lost2)
                } else {
                    (
                        t.with_spaces(t.k.spaces.thread_removed(thread.vspace_handle)).with_threads(
                            t.k.threads.with(
                                slot,
                                Thread::empty(
                                    crate::handle::generation_after(thread.generation),
                                    ThreadState::Free,
                                ),
                            ),
                        ),
                        None,
                    )
                }
            }
        }
    }

    /// The first `k` threads and their pages go.
    pub open spec fn cleanup_slots(self, root: u64, k: int) -> (MachineView, Option<Fault>)
        decreases k,
    {
        if k <= 0 {
            (self, None)
        } else {
            let (s, fault) = self.cleanup_slots(root, k - 1);
            if fault is Some {
                (s, fault)
            } else {
                s.cleanup_slot(root, k - 1)
            }
        }
    }

    /// Every thread goes and no processor runs one any more.
    pub open spec fn cleanup_threads(self, root: u64) -> (MachineView, Option<Fault>) {
        if !self.k.threads.initialized {
            (self, None)
        } else {
            let (s, fault) = self.cleanup_slots(root, 16);
            if fault is Some {
                (s, fault)
            } else {
                (
                    s.with_threads(
                        ThreadTable {
                            current: crate::util::filled(NONE),
                            initialized: false,
                            ..s.k.threads
                        },
                    ),
                    None,
                )
            }
        }
    }
}

/// Lets a suspended thread run.
pub fn start(m: &mut Machine, cx: &Entry, handle: u64) -> (r: u64)
    requires
        old(m)@.wf(),
        cx.cpu < 4,
    ensures
        (final(m)@, r) == old(m)@.thread_start(*cx, handle),
        final(m)@.wf(),
{
    let owner: u32 = task::current_owner(&m.k.task);
    let slot: usize = match resolve_control_handle(&m.k.threads, owner, handle) {
        Err(_) => {
            return abi::SYS_ERR_NOT_FOUND;
        },
        Ok(slot) => slot,
    };
    if m.k.threads.slots[slot].state != ThreadState::Suspended {
        return abi::SYS_ERR_BUSY;
    }
    assert(m.k.threads.slots@[slot as int].wf());
    m.k.threads.slots[slot].state = ThreadState::Ready;
    priority::on_thread_ready(m, cx, slot);
    0
}

/// Takes a thread that is ready, or not yet started, out of scheduling. A running or blocked
/// thread is busy.
pub fn suspend(m: &mut Machine, handle: u64) -> (r: u64)
    requires
        old(m)@.wf(),
    ensures
        (final(m)@, r) == old(m)@.thread_suspend(handle),
        final(m)@.wf(),
{
    let owner: u32 = task::current_owner(&m.k.task);
    let slot: usize = match resolve_control_handle(&m.k.threads, owner, handle) {
        Err(_) => {
            return abi::SYS_ERR_NOT_FOUND;
        },
        Ok(slot) => slot,
    };
    if m.k.threads.slots[slot].state == ThreadState::Ready {
        assert(m.k.threads.slots@[slot as int].wf());
        m.k.threads.slots[slot].state = ThreadState::Suspended;
        priority::on_thread_exit(m, slot);
        return 0;
    }
    if m.k.threads.slots[slot].state == ThreadState::Suspended {
        0
    } else {
        abi::SYS_ERR_BUSY
    }
}

fn drop_pages(m: &mut Machine, root: u64, va: u64, pa: u64, pages: u64) -> (r: Option<Fault>)
    requires
        old(m)@.wf(),
        va + pages * 4096 <= u64::MAX,
        PhysicalMemory::returnable(pa, pages),
    ensures
        (final(m)@, r) == old(m)@.drop_pages(root, va as int, pa, pages),
        final(m)@.wf(),
        final(m)@.k == (Kernel { mem: final(m)@.k.mem, ..old(m)@.k }),
{
    if pages == 0 {
        return None;
    }
    mmu::unmap(m, root, va, pages);
    proof {
        vspace::lemma_unmap_run_frame(old(m)@, root, va as int, pages as int);
    }
    let runs: Vec<(u64, u64)> = vec![(pa, pages)];
    assert(runs@ =~= seq![(pa, pages)]);
    release(m, runs)
}

fn drop_ipc(m: &mut Machine, root: u64, thread: &Thread) -> (r: Option<Fault>)
    requires
        old(m)@.wf(),
        thread.wf(),
    ensures
        (final(m)@, r) == old(m)@.drop_ipc(root, *thread),
        final(m)@.wf(),
        final(m)@.k == (Kernel { mem: final(m)@.k.mem, ..old(m)@.k }),
{
    if thread.ipc_pa == 0 {
        return None;
    }
    drop_pages(m, root, thread.ipc_va, thread.ipc_pa, 1)
}

/// Removes a thread that is neither running nor blocked, and gives its IPC buffer back.
pub fn destroy(m: &mut Machine, handle: u64) -> (r: Result<u64, Fault>)
    requires
        old(m)@.wf(),
    ensures
        (final(m)@, r) == old(m)@.thread_destroy(handle),
        final(m)@.wf(),
{
    let owner: u32 = task::current_owner(&m.k.task);
    let slot: usize = match resolve_control_handle(&m.k.threads, owner, handle) {
        Err(_) => {
            return Ok(abi::SYS_ERR_NOT_FOUND);
        },
        Ok(slot) => slot,
    };
    let thread: Thread = m.k.threads.slots[slot];
    assert(m.k.threads.slots@[slot as int].wf());
    if thread.state == ThreadState::Running || thread.state == ThreadState::Blocked {
        return Ok(abi::SYS_ERR_BUSY);
    }
    if let Some(fault) = drop_ipc(m, thread.vspace_root, &thread) {
        return Err(fault);
    }
    mmu::flush_el1_tlb_range(m, thread.ipc_va, 1);
    vspace::remove_thread(&mut m.k.spaces, thread.vspace_handle);
    let mut gone: Thread = empty_thread(next_generation(thread.generation), ThreadState::Exited);
    gone.running_cpu = thread.running_cpu;
    gone.ready_sequence = thread.ready_sequence;
    gone.runtime_ticks = thread.runtime_ticks;
    m.k.threads.slots[slot] = gone;
    priority::on_thread_exit(m, slot);
    Ok(0)
}

fn has_live_thread(threads: &ThreadTable, creator: u32) -> (r: bool)
    ensures
        r == threads.has_live(creator),
{
    let mut index: usize = 0;
    while index < MAX_THREADS
        invariant
            index <= 16,
            forall|i: int|
                0 <= i < index ==> !((#[trigger] threads.slots@[i]).creator_owner == creator
                    && threads.slots@[i].live()),
        decreases 16 - index,
    {
        if threads.slots[index].creator_owner == creator && is_live(threads.slots[index].state) {
            assert(threads.slots@[index as int].creator_owner == creator);
            return true;
        }
        index = index + 1;
    }
    false
}

/// Ends the running thread: it leaves every queue, its pages go back and its handle becomes
/// stale. `None` when no thread of the task is left.
pub fn exit_current(m: &mut Machine, cx: &Entry, frame: &TrapFrame) -> (r: Result<
    Option<Dispatch>,
    Fault,
>)
    requires
        old(m)@.wf(),
        old(m)@.k.threads.runs(cx.cpu as int),
    ensures
        (final(m)@, r) == old(m)@.thread_exit(*cx, *frame),
        final(m)@.wf(),
{
    save_current(m, cx, frame);
    let slot: usize = current_slot(&m.k.threads, cx.cpu);
    ipc::cancel_thread(m, cx, slot);
    priority::on_thread_exit(m, slot);
    let thread: Thread = m.k.threads.slots[slot];
    assert(m.k.threads.slots@[slot as int].wf());
    if let Some(fault) = drop_pages(
        m,
        thread.vspace_root,
        thread.stack_va,
        thread.stack_pa,
        thread.stack_pages,
    ) {
        return Err(fault);
    }
    if let Some(fault) = drop_ipc(m, thread.vspace_root, &thread) {
        return Err(fault);
    }
    vspace::remove_thread(&mut m.k.spaces, thread.vspace_handle);
    mmu::flush_el1_tlb(m);
    let mut gone: Thread = empty_thread(next_generation(thread.generation), ThreadState::Exited);
    gone.base_priority = thread.base_priority;
    gone.effective_priority = thread.effective_priority;
    gone.ready_sequence = thread.ready_sequence;
    gone.runtime_ticks = thread.runtime_ticks;
    m.k.threads.slots[slot] = gone;
    if has_live_thread(&m.k.threads, task::current_owner(&m.k.task)) {
        Ok(Some(priority::schedule_after_block(m, cx)))
    } else {
        Ok(None)
    }
}

/// Gives a thread of the current owner another base priority, no higher than the caller may
/// give.
pub fn set_priority(m: &mut Machine, cx: &Entry, handle: u64, priority: u64) -> (r: u64)
    requires
        old(m)@.wf(),
        old(m)@.k.threads.runs(cx.cpu as int),
    ensures
        (final(m)@, r) == old(m)@.set_priority(*cx, handle, priority),
        final(m)@.wf(),
{
    if priority > abi::MAX_THREAD_PRIORITY as u64 {
        return abi::SYS_ERR_INVALID;
    }
    let owner: u32 = task::current_owner(&m.k.task);
    let target: usize = match resolve_handle(&m.k.threads, owner, handle) {
        Ok(slot) => slot,
        Err(error) => {
            return error;
        },
    };
    let caller_mcp: u8 = m.k.threads.slots[current_slot(&m.k.threads, cx.cpu)].max_control_priority;
    if priority as u8 > caller_mcp {
        return abi::SYS_ERR_DENIED;
    }
    assert(m.k.threads.slots@[target as int].wf());
    m.k.threads.slots[target].base_priority = priority as u8;
    ipc::recompute_inherited_priorities(m, cx);
    priority::priority_changed(m, cx, target);
    0
}

/// Processor time that a thread of the current owner has used, up to now.
pub fn runtime(m: &Machine, cx: &Entry, handle: u64) -> (r: u64)
    ensures
        r == m@.thread_runtime(*cx, handle),
{
    let owner: u32 = task::current_owner(&m.k.task);
    match resolve_handle(&m.k.threads, owner, handle) {
        Ok(slot) => {
            let accumulated: u64 = m.k.threads.slots[slot].runtime_ticks;
            accumulated.wrapping_add(priority::active_runtime_ticks(m, cx, slot))
        },
        Err(error) => error,
    }
}

fn cleanup_slot(m: &mut Machine, root: u64, slot: usize) -> (r: Option<Fault>)
    requires
        old(m)@.wf(),
        slot < 16,
    ensures
        (final(m)@, r) == old(m)@.cleanup_slot(root, slot as int),
        final(m)@.wf(),
{
    let thread: Thread = m.k.threads.slots[slot];
    assert(m.k.threads.slots@[slot as int].wf());
    if thread.owner == 0 {
        return None;
    }
    let table: u64 = if thread.vspace_root > root {
        thread.vspace_root
    } else {
        root
    };
    if let Some(fault) = drop_pages(
        m,
        table,
        thread.stack_va,
        thread.stack_pa,
        thread.stack_pages,
    ) {
        return Some(fault);
    }
    if let Some(fault) = drop_ipc(m, table, &thread) {
        return Some(fault);
    }
    vspace::remove_thread(&mut m.k.spaces, thread.vspace_handle);
    m.k.threads.slots[slot] = empty_thread(
        next_generation(thread.generation),
        ThreadState::Free,
    );
    None
}

/// Ends every thread of the task that is going away.
pub fn cleanup_all(m: &mut Machine, root: u64) -> (r: Result<(), Fault>)
    requires
        old(m)@.wf(),
    ensures
        final(m)@ == old(m)@.cleanup_threads(root).0,
        r == match old(m)@.cleanup_threads(root).1 {
            None => Ok::<(), Fault>(()),
            Some(fault) => Err::<(), Fault>(fault),
        },
        final(m)@.wf(),
{
    if !is_initialized(&m.k.threads) {
        return Ok(());
    }
    let mut slot: usize = 0;
    while slot < MAX_THREADS
        invariant
            slot <= 16,
            m@.wf(),
            old(m)@.k.threads.initialized,
            (m@, None::<Fault>) == old(m)@.cleanup_slots(root, slot as int),
        decreases 16 - slot,
    {
        if let Some(fault) = cleanup_slot(m, root, slot) {
            proof {
                lemma_cleanup_stops(old(m)@, root, slot + 1, 16);
            }
            return Err(fault);
        }
        slot = slot + 1;
    }
    m.k.threads.current = [NONE; 4];
    m.k.threads.initialized = false;
    Ok(())
}

proof fn lemma_cleanup_stops(s: MachineView, root: u64, n: int, k: int)
    requires
        0 <= n <= k,
        s.cleanup_slots(root, n).1 is Some,
    ensures
        s.cleanup_slots(root, k) == s.cleanup_slots(root, n),
    decreases k - n,
{
    if n < k {
        lemma_cleanup_stops(s, root, n, k - 1);
    }
}

impl MachineView {
    /// The first thread of a new task runs on the first processor, at the middle priority. Its
    /// stack belongs to the task.
    pub open spec fn first_thread(self, cx: Entry, entry: u64, stack_top: u64, ipc_pa: u64)
        -> MachineView {
        let zero = TrapFrame::zeroed();
        self.with_threads(
            ThreadTable {
                current: self.k.threads.current.upd(0, 0),
                initialized: true,
                ..self.k.threads.with(
                    0,
                    Thread {
                        generation: self.k.threads.slots@[0].generation,
                        owner: self.k.task.owner(),
                        creator_owner: self.k.task.owner(),
                        vspace_handle: self.k.spaces.handle_on(cx.cpu),
                        vspace_root: self.k.active_table,
                        state: ThreadState::Running,
                        context: TrapFrame {
                            x: zero.x.upd(0, abi::USER_BOOT_INFO_VA),
                            sp_el0: stack_top,
                            elr_el1: entry,
                            ..zero
                        },
                        stack_pa: 0,
                        stack_pages: 0,
                        stack_va: (stack_top - 16 * 4096) as u64,
                        ipc_pa,
                        ipc_va: ipc_va_of(0) as u64,
                        affinity_cpu: 0,
                        base_priority: 32,
                        effective_priority: 32,
                        max_control_priority: 63,
                        running_cpu: 0,
                        ready_sequence: 0,
                        runtime_ticks: 0,
                    },
                )
            },
        )
    }
}

/// Records the task's first thread, which enters EL0 at `entry` on the first processor. Its IPC
/// buffer is mapped already.
pub fn install_initial(m: &mut Machine, cx: &Entry, entry: u64, stack_top: u64, ipc_pa: u64)
    requires
        old(m)@.wf(),
        stack_top >= 16 * 4096,
        PhysicalMemory::returnable(ipc_pa, 1),
    ensures
        final(m)@ == old(m)@.first_thread(*cx, entry, stack_top, ipc_pa),
        final(m)@.wf(),
{
    let owner: u32 = task::current_owner(&m.k.task);
    let vspace_handle: u64 = vspace::current_handle(&m.k.spaces, cx.cpu);
    let vspace_root: u64 = mmu::active_table(m);
    let mut context: TrapFrame = TrapFrame::zero();
    context.x[0] = abi::USER_BOOT_INFO_VA;
    context.sp_el0 = stack_top;
    context.elr_el1 = entry;
    assert(m.k.threads.slots@[0].wf());
    let generation: u32 = m.k.threads.slots[0].generation;
    m.k.threads.slots[0] = Thread {
        generation,
        owner,
        creator_owner: owner,
        vspace_handle,
        vspace_root,
        state: ThreadState::Running,
        context,
        stack_pa: 0,
        stack_pages: 0,
        stack_va: stack_top - abi::USER_STACK_PAGES * abi::PAGE_SIZE,
        ipc_pa,
        ipc_va: ipc_va(0),
        affinity_cpu: 0,
        base_priority: 32,
        effective_priority: 32,
        max_control_priority: 63,
        running_cpu: 0,
        ready_sequence: 0,
        runtime_ticks: 0,
    };
    m.k.threads.current[0] = 0;
    m.k.threads.initialized = true;
}

} // verus!
