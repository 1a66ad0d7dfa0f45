//! Processor time: what a thread is charged with, and what it reports.
use crate::abi;
use crate::hw::HwOp;
use crate::laws::scheduling;
use crate::machine::{Dispatch, Entry, MachineView};
use crate::memory::{mmu, vspace};
use crate::object::thread::{self, ThreadState};
use crate::syscall::dispatch::TrapFrame;
use vstd::prelude::*;

verus! {

/// What the running thread of this processor has used since it was last charged.
pub open spec fn spent(s: MachineView, cx: Entry) -> u64 {
    cx.now.wrapping_sub(s.k.sched.cpus@[cx.cpu as int].active_start)
}

/// Thread `slot` was charged with `ticks` on the way from `a` to `b`.
pub open spec fn charged(a: MachineView, b: MachineView, slot: int, ticks: u64) -> bool {
    b.k.threads.slots@[slot].runtime_ticks == a.k.threads.slots@[slot].runtime_ticks.wrapping_add(
        ticks,
    )
}

/// What thread `slot` is charged with when the running thread leaves this processor.
pub open spec fn share(s: MachineView, cx: Entry, slot: int) -> u64 {
    if s.k.threads.current@[cx.cpu as int] == slot {
        spent(s, cx)
    } else {
        0
    }
}

proof fn lemma_choice_uncharged(s: MachineView, cx: Entry, slot: int)
    requires
        0 <= slot < 16,
        cx.cpu < 4,
    ensures
        s.wait_and_activate(cx).0.k.threads.slots@[slot].runtime_ticks
            == s.k.threads.slots@[slot].runtime_ticks,
        s.wait_and_activate(cx).1 is Switch ==> s.wait_and_activate(
            cx,
        ).0.k.sched.cpus@[cx.cpu as int].active_start == cx.now,
{
    scheduling::lemma_next_in_range(s, cx.cpu as int);
}

/// A thread that leaves its processor, because its slice is over, because it gives its turn away
/// or because it waits, is charged with the time since its last charge, and no other thread is
/// charged with anything. The time of the thread that runs next is counted from now on.
pub proof fn law_leaving_is_charged(s: MachineView, cx: Entry, frame: TrapFrame, slot: int)
    requires
        cx.cpu < 4,
        s.k.threads.runs(cx.cpu as int),
        s.k.threads.slots@[s.k.threads.current@[cx.cpu as int] as int].state
            == ThreadState::Running,
        0 <= slot < 16,
    ensures
        charged(s, s.yield_current(cx, frame).0, slot, share(s, cx, slot)),
        charged(s, s.block(cx, frame).0, slot, share(s, cx, slot)),
        s.yield_current(cx, frame).1 is Switch ==> s.yield_current(
            cx,
            frame,
        ).0.k.sched.cpus@[cx.cpu as int].active_start == cx.now,
        s.block(cx, frame).2 matches Ok(Dispatch::Switch(_)) ==> s.block(
            cx,
            frame,
        ).0.k.sched.cpus@[cx.cpu as int].active_start == cx.now,
{
    let a = s.charge_current(cx);
    assert(charged(s, a, slot, share(s, cx, slot)));
    let ready = a.make_current_ready(cx, frame);
    assert(ready.k.threads.slots@[slot].runtime_ticks == a.k.threads.slots@[slot].runtime_ticks);
    lemma_choice_uncharged(ready, cx, slot);
    let blocked = a.leave(cx, frame, ThreadState::Blocked);
    assert(blocked.charge_current(cx) == blocked);
    lemma_choice_uncharged(blocked.disarm(), cx, slot);
}

/// Sum of the first `k` charges.
pub open spec fn sum_of(ticks: Seq<u64>, k: int) -> int
    decreases k,
{
    if k <= 0 {
        0
    } else {
        sum_of(ticks, k - 1) + ticks[k - 1]
    }
}

proof fn lemma_charges_add_up(states: Seq<MachineView>, ticks: Seq<u64>, slot: int, k: int)
    requires
        states.len() == ticks.len() + 1,
        states[0].k.threads.slots@[slot].runtime_ticks == 0,
        forall|i: int|
            0 <= i < ticks.len() ==> charged(
                states[i],
                states[i + 1],
                slot,
                #[trigger] ticks[i],
            ),
        0 <= k <= ticks.len(),
    ensures
        sum_of(ticks, k) >= 0,
        states[k].k.threads.slots@[slot].runtime_ticks == sum_of(ticks, k)
            % 0x1_0000_0000_0000_0000,
    decreases k,
{
    if k > 0 {
        lemma_charges_add_up(states, ticks, slot, k - 1);
        assert(charged(states[k - 1], states[k - 1 + 1], slot, ticks[k - 1]));
    }
}

/// A thread that began with nothing reports the sum of all that it was charged with since, and,
/// while it runs, also the time since its last charge; the count wraps. A value that is no
/// handle is invalid, and a handle of no live thread of the task is not found.
pub proof fn law_runtime_is_sum_of_charges(
    states: Seq<MachineView>,
    ticks: Seq<u64>,
    cx: Entry,
    handle: u64,
)
    requires
        states.len() == ticks.len() + 1,
    ensures
        ({
            let s = states.last();
            match s.k.threads.resolve(s.k.task.owner(), handle) {
                Ok(slot) => {
                    let thread = s.k.threads.slots@[slot];
                    let start = s.k.sched.cpus@[thread.running_cpu as int].active_start;
                    let active: u64 = if thread.state == ThreadState::Running && thread.running_cpu
                        < 4 && start != 0 {
                        cx.now.wrapping_sub(start)
                    } else {
                        0
                    };
                    states[0].k.threads.slots@[slot].runtime_ticks == 0 && (forall|i: int|
                        0 <= i < ticks.len() ==> charged(
                            states[i],
                            states[i + 1],
                            slot,
                            #[trigger] ticks[i],
                        )) ==> s.thread_runtime(cx, handle) == (sum_of(ticks, ticks.len() as int)
                        + active) % 0x1_0000_0000_0000_0000
                },
                Err(error) => {
                    &&& s.thread_runtime(cx, handle) == error
                    &&& error == if crate::handle::decoded(handle, 16) is None {
                        abi::SYS_ERR_INVALID
                    } else {
                        abi::SYS_ERR_NOT_FOUND
                    }
                },
            }
        }),
{
    let s = states.last();
    if let Ok(slot) = s.k.threads.resolve(s.k.task.owner(), handle) {
        if states[0].k.threads.slots@[slot].runtime_ticks == 0 && (forall|i: int|
            0 <= i < ticks.len() ==> charged(states[i], states[i + 1], slot, #[trigger] ticks[i])) {
            lemma_charges_add_up(states, ticks, slot, ticks.len() as int);
        }
    }
}

/// A thread that is made is found by its handle and has not been charged with anything.
pub proof fn law_new_thread_is_uncharged(
    s: MachineView,
    cx: Entry,
    entry: u64,
    arg: u64,
    cpu: u64,
    priority: u64,
    mcp: u64,
)
    requires
        s.wf(),
        cx.cpu < 4,
        s.thread_create(cx, entry, arg, cpu, priority, mcp).1 is Ok,
        !abi::sys_error(s.thread_create(cx, entry, arg, cpu, priority, mcp).1->Ok_0),
    ensures
        ({
            let (t, r) = s.thread_create(cx, entry, arg, cpu, priority, mcp);
            match t.k.threads.resolve(t.k.task.owner(), r->Ok_0) {
                Ok(slot) => t.k.threads.slots@[slot].runtime_ticks == 0,
                Err(_) => false,
            }
        }),
{
    let root = s.k.active_table;
    let slot = s.k.threads.free_slot(1)->0;
    scheduling::lemma_free_slot(s.k.threads, 1);
    let (mem, stack) = s.k.mem.pages_alloc(64);
    let a = s.with_mem(mem);
    let stack_pa = stack->0;
    let (mem2, page) = a.k.mem.page_alloc();
    let ipc_pa = page->0;
    let b = a.with_mem(mem2).op(HwOp::Zero { pa: stack_pa, bytes: 0x4_0000 }).op(
        HwOp::Zero { pa: ipc_pa, bytes: 4096 },
    );
    let stack_va = thread::stack_base_of(slot);
    let ipc_va = thread::ipc_va_of(slot);
    let (c, no_stack) = b.map_checked(root, stack_va, stack_pa as int, mmu::MMU_USER_RW, 64);
    vspace::lemma_map_checked_frame(b, root, stack_va, stack_pa as int, mmu::MMU_USER_RW, 64);
    let d = c.map_checked(root, ipc_va, ipc_pa as int, mmu::MMU_USER_RW, 1).0;
    vspace::lemma_map_checked_frame(c, root, ipc_va, ipc_pa as int, mmu::MMU_USER_RW, 1);
    assert(s.k.threads.slots@[slot].wf());
    let generation = s.k.threads.slots@[slot].generation;
    crate::handle::law_handle_round_trip(slot, generation, 16);
    let t = s.thread_create(cx, entry, arg, cpu, priority, mcp).0;
    assert(t.k.threads.slots@[slot].generation == generation);
    assert(t.k.threads.slots@[slot].state == ThreadState::Ready);
    assert(t.k.threads.slots@[slot].runtime_ticks == 0);
}

} // verus!
