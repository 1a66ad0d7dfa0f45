//! What the calls on threads do to the thread that they name, and to no other.
use crate::abi;
use crate::hw::HwOp;
use crate::laws::access::{self, mapped_as, nothing_at};
use crate::laws::exchange::{asks, others_undisturbed, results_in};
use crate::laws::{messages, stillness};
use crate::machine::{Dispatch, Entry, MachineView};
use crate::memory::physical::PHYSICAL_LIMIT;
use crate::memory::{mmu, physical, vspace};
use crate::object::thread::{Thread, ThreadState, NONE};
use crate::syscall::dispatch::TrapFrame;
use vstd::prelude::*;

verus! {

/// No open call waits for an answer of thread `slot`.
pub open spec fn without_callers(s: MachineView, slot: int) -> bool {
    forall|i: int|
        0 <= i < 16 && (#[trigger] s.k.ipc.replies@[i]).owner != 0 ==> s.k.ipc.replies@[i].server
            != slot
}

proof fn lemma_priority_changed(s: MachineView, cx: Entry, slot: int)
    requires
        0 <= slot < 16,
    ensures
        ({
            let t = s.priority_changed(cx, slot);
            &&& forall|i: int|
                0 <= i < 16 ==> {
                    let a = s.k.threads.slots@[i];
                    let b = #[trigger] t.k.threads.slots@[i];
                    b == (Thread {
                        ready_sequence: b.ready_sequence,
                        runtime_ticks: b.runtime_ticks,
                        ..a
                    })
                }
            &&& t.k.ipc == s.k.ipc
            &&& t.k.task == s.k.task
            &&& t.k.threads.current == s.k.threads.current
        }),
{
}

/// A priority that is set is the own priority of the thread that the handle names, be it higher or
/// lower than before. No other thread's own priority changes, and no thread's state or registers
/// do. The thread then runs at the greatest own priority among itself and those that wait for it:
/// at the priority that was set, if nobody does. A priority that is out of range, or higher than
/// the caller may give, is refused and changes nothing.
#[verifier::spinoff_prover]
pub proof fn law_priority_is_what_was_set(s: MachineView, cx: Entry, frame: TrapFrame)
    requires
        asks(s, cx, frame, abi::SYS_THREAD_SET_PRIORITY),
    ensures
        ({
            let me = s.k.threads.slots@[s.current(cx) as int];
            let found = s.k.threads.resolve(s.k.task.owner(), frame.x@[0]);
            let priority = frame.x@[1];
            let (t, result, next) = s.svc_frame(cx, frame);
            &&& next == Dispatch::Return
            &&& if priority > 63 {
                t == s && results_in(frame, result, abi::SYS_ERR_INVALID)
            } else if found is Err {
                t == s && results_in(frame, result, found->Err_0)
            } else if priority > me.max_control_priority {
                t == s && results_in(frame, result, abi::SYS_ERR_DENIED)
            } else {
                let slot = found->Ok_0;
                &&& results_in(frame, result, 0)
                &&& t.k.threads.slots@[slot].base_priority == priority
                &&& t.k.threads.slots@[slot].state == s.k.threads.slots@[slot].state
                &&& t.k.threads.slots@[slot].context == s.k.threads.slots@[slot].context
                &&& others_undisturbed(s, t, slot, -1, -1)
                &&& t.k.ipc == s.k.ipc
                &&& t.k.task == s.k.task
                &&& t.k.threads.current == s.k.threads.current
                &&& without_callers(s, slot) ==> t.k.threads.slots@[slot].effective_priority
                    == priority
                &&& forall|caller: int, steps: nat|
                    0 <= caller < 16 && #[trigger] messages::reaches(
                        s.k.ipc.replies,
                        caller,
                        slot,
                        steps,
                    ) ==> t.k.threads.slots@[caller].base_priority
                        <= t.k.threads.slots@[slot].effective_priority
                &&& exists|caller: int, steps: nat|
                    0 <= caller < 16 && #[trigger] messages::reaches(
                        s.k.ipc.replies,
                        caller,
                        slot,
                        steps,
                    ) && t.k.threads.slots@[caller].base_priority
                        == t.k.threads.slots@[slot].effective_priority
            }
        }),
{
    let me = s.k.threads.slots@[s.current(cx) as int];
    let found = s.k.threads.resolve(s.k.task.owner(), frame.x@[0]);
    let priority = frame.x@[1];
    let (t, result, next) = s.svc_frame(cx, frame);
    if priority <= 63 && found is Ok && priority <= me.max_control_priority {
        let slot = found->Ok_0;
        let p = s.with_threads(
            s.k.threads.with(
                slot,
                Thread { base_priority: priority as u8, ..s.k.threads.slots@[slot] },
            ),
        );
        assert(p.k.ipc.replies == s.k.ipc.replies);
        stillness::lemma_recompute(p, cx);
        let q = p.recompute(cx);
        assert(t == q.priority_changed(cx, slot));
        lemma_priority_changed(q, cx, slot);
        assert forall|i: int| 0 <= i < 16 implies #[trigger] t.k.threads.slots@[i] == (Thread {
            ready_sequence: t.k.threads.slots@[i].ready_sequence,
            runtime_ticks: t.k.threads.slots@[i].runtime_ticks,
            effective_priority: q.k.threads.slots@[i].effective_priority,
            ..p.k.threads.slots@[i]
        }) by {
            assert(stillness::reranked_thread(p.k.threads.slots@[i], q.k.threads.slots@[i]));
        }
        assert forall|i: int| 0 <= i < 16 implies {
            let reply = #[trigger] s.k.ipc.replies@[i];
            reply.owner != 0 ==> reply.caller < 16 && reply.server < 16
        } by {
            assert(s.k.ipc.replies@[i].wf());
        }
        messages::law_recompute_settles(p, cx, slot);
        if without_callers(s, slot) {
            let (caller, steps) = choose|caller: int, steps: nat|
                0 <= caller < 16 && #[trigger] messages::reaches(
                    s.k.ipc.replies,
                    caller,
                    slot,
                    steps,
                ) && p.k.threads.slots@[caller].base_priority
                    == q.k.threads.slots@[slot].effective_priority;
            if caller != slot {
                let i = choose|i: int|
                    0 <= i < 16 && #[trigger] messages::serves(s.k.ipc.replies, i, slot)
                        && messages::reaches(
                        s.k.ipc.replies,
                        caller,
                        s.k.ipc.replies@[i].caller as int,
                        (steps - 1) as nat,
                    );
                assert(s.k.ipc.replies@[i].owner != 0);
            }
        }
    }
}


/// A new thread is found by its handle. It took a place that no live thread had, in the address
/// space of its maker and under the same owner. It begins at the entry point that was asked for,
/// with the argument, its own handle and the place of its IPC buffer in the first registers and
/// its stack pointer at the end of its stack; with the priority and on the processor that were
/// asked for.
pub open spec fn newly_made(
    s: MachineView,
    t: MachineView,
    cx: Entry,
    slot: int,
    handle: u64,
    args: (u64, u64, u64, u64, u64),
) -> bool {
    let (entry, arg, cpu, priority, mcp) = args;
    let thread = t.k.threads.slots@[slot];
    &&& t.k.threads.resolve(s.k.task.owner(), handle) == Ok::<int, u64>(slot)
    &&& t.k.threads.resolve_control(s.k.task.owner(), handle) == Ok::<int, u64>(slot)
    &&& 1 <= slot < 16
    &&& !s.k.threads.slots@[slot].live()
    &&& thread.state == ThreadState::Ready
    &&& thread.vspace_handle == s.k.spaces.handle_on(cx.cpu)
    &&& thread.vspace_root == s.k.active_table
    &&& thread.context.elr_el1 == entry
    &&& thread.context.spsr_el1 == 0
    &&& thread.context.sp_el0 == thread.stack_va + 0x4_0000
    &&& thread.context.x@[0] == arg
    &&& thread.context.x@[1] == handle
    &&& thread.context.x@[2] == thread.ipc_va
    &&& forall|i: int| 3 <= i < 31 ==> #[trigger] thread.context.x@[i] == 0
    &&& thread.affinity_cpu == cpu
    &&& thread.base_priority == priority
    &&& thread.effective_priority == priority
    &&& thread.max_control_priority == mcp
    &&& thread.running_cpu == NONE
    &&& thread.runtime_ticks == 0
    &&& thread.stack_pages == 64
}

#[verifier::spinoff_prover]
#[verifier::rlimit(40)]
proof fn lemma_create_mapped(
    s: MachineView,
    cx: Entry,
    slot: int,
    stack_pa: u64,
    ipc_pa: u64,
    entry: u64,
    arg: u64,
    cpu: u64,
    priority: u64,
    mcp: u64,
)
    requires
        s.paging_ok(),
        s.k.threads.wf(),
        s.k.task.owner() != 0,
        1 <= slot < 16,
        !s.k.threads.slots@[slot].live(),
        cx.cpu < 4,
        cpu < 4,
        priority <= mcp <= 63,
        stack_pa % 4096 == 0,
        stack_pa + 64 * 4096 <= PHYSICAL_LIMIT,
        ipc_pa % 4096 == 0,
        ipc_pa + 4096 <= PHYSICAL_LIMIT,
    ensures
        ({
            let (t, r) = s.thread_create_mapped(
                cx,
                slot,
                stack_pa,
                ipc_pa,
                entry,
                arg,
                cpu,
                priority,
                mcp,
            );
            let thread = t.k.threads.slots@[slot];
            let root = s.k.active_table;
            if r is Ok && !abi::sys_error(r->Ok_0) {
                &&& newly_made(s, t, cx, slot, r->Ok_0, (entry, arg, cpu, priority, mcp))
                &&& thread.stack_pa == stack_pa
                &&& thread.ipc_pa == ipc_pa
                &&& mapped_as(t, root, thread.stack_va as int, stack_pa as int, 64, true, false, 0)
                &&& mapped_as(t, root, thread.ipc_va as int, ipc_pa as int, 1, true, false, 0)
                &&& nothing_at(s, root, thread.stack_va as int, 64)
                &&& nothing_at(s, root, thread.ipc_va as int, 1)
                &&& others_undisturbed(s, t, slot, -1, -1)
                &&& t.k.ipc == s.k.ipc
                &&& t.k.threads.current == s.k.threads.current
            } else {
                t.k.threads == s.k.threads && t.k.ipc == s.k.ipc
            }
        }),
{
    let root = s.k.active_table;
    let stack_va = crate::object::thread::stack_base_of(slot);
    let ipc_va = crate::object::thread::ipc_va_of(slot);
    let flags = mmu::MMU_USER_RW;
    access::lemma_map_checked(s, root, stack_va, stack_pa as int, flags, 64, true, false, 0);
    vspace::lemma_map_checked_frame(s, root, stack_va, stack_pa as int, flags, 64);
    let (a, no_stack) = s.map_checked(root, stack_va, stack_pa as int, flags, 64);
    if no_stack is None {
        access::lemma_map_checked(a, root, ipc_va, ipc_pa as int, flags, 1, true, false, 0);
        vspace::lemma_map_checked_frame(a, root, ipc_va, ipc_pa as int, flags, 1);
        let (b, no_ipc) = a.map_checked(root, ipc_va, ipc_pa as int, flags, 1);
        vspace::lemma_unmap_run_frame(b, root, stack_va, 64);
        let b1 = b.unmap_run(root, stack_va, 64).0;
        vspace::lemma_unmap_run_frame(b1, root, ipc_va, 1);
        if no_ipc is None {
            let (t, r) = s.thread_create_mapped(
                cx,
                slot,
                stack_pa,
                ipc_pa,
                entry,
                arg,
                cpu,
                priority,
                mcp,
            );
            let generation = s.k.threads.slots@[slot].generation;
            assert(s.k.threads.slots@[slot].wf());
            crate::handle::law_handle_round_trip(slot, generation, 16);
            crate::handle::law_handle_is_no_error(slot, generation);
            if r is Ok && !abi::sys_error(r->Ok_0) {
                assert(t.tables == b.tables);
                assert forall|a0: int| stack_va <= a0 < stack_va + 64
                    * 4096 implies #[trigger] t.page_at(root, a0) == a.page_at(root, a0) by {
                    assert(t.page_at(root, a0) == b.page_at(root, a0));
                }
                access::lemma_mapped_stays(
                    a,
                    t,
                    root,
                    stack_va,
                    stack_pa as int,
                    64,
                    true,
                    false,
                    0,
                );
                assert forall|a0: int| ipc_va <= a0 < ipc_va + 1
                    * 4096 implies #[trigger] t.page_at(root, a0) == b.page_at(root, a0) by {
                }
                access::lemma_mapped_stays(
                    b,
                    t,
                    root,
                    ipc_va,
                    ipc_pa as int,
                    1,
                    true,
                    false,
                    0,
                );
                assert forall|a0: int| ipc_va <= a0 < ipc_va + 1
                    * 4096 implies #[trigger] s.page_at(root, a0) is None by {
                    assert(a.page_at(root, a0) is None);
                }
            }
        }
    }
}

proof fn lemma_free_slot(s: MachineView, from: int)
    requires
        0 <= from,
    ensures
        match s.k.threads.free_slot(from) {
            Some(slot) => from <= slot < 16 && !s.k.threads.slots@[slot].live(),
            None => forall|i: int| from <= i < 16 ==> (#[trigger] s.k.threads.slots@[i]).live(),
        },
    decreases 16 - from,
{
    if from < 16 {
        lemma_free_slot(s, from + 1);
    }
}

/// The call that makes a thread refuses a processor that is not there and priorities that are out
/// of range or above the limit that is asked for, an entry point that EL0 may not execute, and one
/// thread too many. A thread that is made is as it was asked for. Its stack and its IPC buffer were
/// not mapped before; they are mapped for it to read and write, and not to execute. No other
/// thread is touched, whether one was made or not.
pub proof fn law_new_thread_is_as_asked(s: MachineView, cx: Entry, frame: TrapFrame)
    requires
        asks(s, cx, frame, abi::SYS_THREAD_CREATE),
    ensures
        ({
            let entry = frame.x@[0];
            let arg = frame.x@[1];
            let cpu = frame.x@[2];
            let priority = frame.x@[3];
            let mcp = frame.x@[4];
            let root = s.k.active_table;
            let (t, result, next) = s.svc_frame(cx, frame);
            if cpu >= s.k.smp.cpu_count || priority > mcp || mcp > 63 {
                &&& t == s
                &&& results_in(frame, result, abi::SYS_ERR_INVALID)
                &&& next == Dispatch::Return
            } else if !s.user_executable(root, entry as int) {
                &&& t == s
                &&& results_in(frame, result, abi::SYS_ERR_DENIED)
                &&& next == Dispatch::Return
            } else if forall|i: int| 1 <= i < 16 ==> (#[trigger] s.k.threads.slots@[i]).live() {
                &&& t == s
                &&& results_in(frame, result, abi::SYS_ERR_NO_SLOT)
                &&& next == Dispatch::Return
            } else if next == Dispatch::Return && !abi::sys_error(result.x@[0]) {
                let slot = t.k.threads.resolve(s.k.task.owner(), result.x@[0])->Ok_0;
                let thread = t.k.threads.slots@[slot];
                &&& results_in(frame, result, result.x@[0])
                &&& newly_made(
                    s,
                    t,
                    cx,
                    slot,
                    result.x@[0],
                    (entry, arg, cpu, priority, mcp),
                )
                &&& mapped_as(
                    t,
                    root,
                    thread.stack_va as int,
                    thread.stack_pa as int,
                    64,
                    true,
                    false,
                    0,
                )
                &&& mapped_as(
                    t,
                    root,
                    thread.ipc_va as int,
                    thread.ipc_pa as int,
                    1,
                    true,
                    false,
                    0,
                )
                &&& nothing_at(s, root, thread.stack_va as int, 64)
                &&& nothing_at(s, root, thread.ipc_va as int, 1)
                &&& others_undisturbed(s, t, slot, -1, -1)
                &&& t.k.ipc == s.k.ipc
                &&& t.k.threads.current == s.k.threads.current
            } else {
                t.k.threads == s.k.threads && t.k.ipc == s.k.ipc
            }
        }),
{
    let entry = frame.x@[0];
    let arg = frame.x@[1];
    let cpu = frame.x@[2];
    let priority = frame.x@[3];
    let mcp = frame.x@[4];
    let (t, result, next) = s.svc_frame(cx, frame);
    lemma_free_slot(s, 1);
    if !(cpu >= s.k.smp.cpu_count || priority > mcp || mcp > 63) && s.user_executable(
        s.k.active_table,
        entry as int,
    ) && s.k.threads.free_slot(1) is Some {
        let slot = s.k.threads.free_slot(1)->0;
        physical::lemma_pages_alloc_ok(s.k.mem, 64);
        let (mem, stack) = s.k.mem.pages_alloc(64);
        let a = s.with_mem(mem);
        physical::lemma_pages_alloc_ok(mem, 1);
        let (mem2, page) = a.k.mem.page_alloc();
        let b = a.with_mem(mem2);
        if stack is Some && page is Some {
            let c = b.op(HwOp::Zero { pa: stack->0, bytes: 0x4_0000 }).op(
                HwOp::Zero { pa: page->0, bytes: 4096 },
            );
            assert(c.tables == s.tables);
            lemma_create_mapped(
                c,
                cx,
                slot,
                stack->0,
                page->0,
                entry,
                arg,
                cpu,
                priority,
                mcp,
            );
            let (u, r) = c.thread_create_mapped(
                cx,
                slot,
                stack->0,
                page->0,
                entry,
                arg,
                cpu,
                priority,
                mcp,
            );
            assert(s.thread_create(cx, entry, arg, cpu, priority, mcp) == (u, r));
            if r is Ok && !abi::sys_error(r->Ok_0) {
                let thread = u.k.threads.slots@[slot];
                assert(result.x@[0] == r->Ok_0);
                assert forall|x: int| thread.stack_va <= x < thread.stack_va + 64
                    * 4096 implies #[trigger] s.page_at(s.k.active_table, x) is None by {
                    assert(c.page_at(s.k.active_table, x) is None);
                }
                assert forall|x: int| thread.ipc_va <= x < thread.ipc_va + 1
                    * 4096 implies #[trigger] s.page_at(s.k.active_table, x) is None by {
                    assert(c.page_at(s.k.active_table, x) is None);
                }
            }
        }
    }
}


/// A thread that is suspended becomes ready when its maker starts it; any other is left alone, and
/// so is every thread that the caller did not make.
pub proof fn law_start_readies_suspended(s: MachineView, cx: Entry, frame: TrapFrame)
    requires
        asks(s, cx, frame, abi::SYS_THREAD_START),
    ensures
        ({
            let found = s.k.threads.resolve_control(s.k.task.owner(), frame.x@[0]);
            let (t, result, next) = s.svc_frame(cx, frame);
            &&& next == Dispatch::Return
            &&& if found is Err {
                t == s && results_in(frame, result, abi::SYS_ERR_NOT_FOUND)
            } else if s.k.threads.slots@[found->Ok_0].state != ThreadState::Suspended {
                t == s && results_in(frame, result, abi::SYS_ERR_BUSY)
            } else {
                let slot = found->Ok_0;
                &&& results_in(frame, result, 0)
                &&& t.k.threads.slots@[slot] == (Thread {
                    state: ThreadState::Ready,
                    ready_sequence: t.k.threads.slots@[slot].ready_sequence,
                    ..s.k.threads.slots@[slot]
                })
                &&& others_undisturbed(s, t, slot, -1, -1)
                &&& t.k.threads.current == s.k.threads.current
                &&& t.k.ipc == s.k.ipc
            }
        }),
{
}

/// A thread that is ready is taken from the ready ones when its maker suspends it; one that is
/// suspended stays so; one that runs or waits cannot be suspended.
pub proof fn law_suspend_parks_ready(s: MachineView, cx: Entry, frame: TrapFrame)
    requires
        asks(s, cx, frame, abi::SYS_THREAD_SUSPEND),
    ensures
        ({
            let found = s.k.threads.resolve_control(s.k.task.owner(), frame.x@[0]);
            let (t, result, next) = s.svc_frame(cx, frame);
            &&& next == Dispatch::Return
            &&& t.k.ipc == s.k.ipc
            &&& t.ops == s.ops
            &&& if found is Err {
                t == s && results_in(frame, result, abi::SYS_ERR_NOT_FOUND)
            } else {
                let slot = found->Ok_0;
                let before = s.k.threads.slots@[slot];
                &&& forall|i: int|
                    0 <= i < 16 && i != slot ==> #[trigger] t.k.threads.slots@[i]
                        == s.k.threads.slots@[i]
                &&& t.k.threads.current == s.k.threads.current
                &&& if before.state == ThreadState::Ready || before.state
                    == ThreadState::Suspended {
                    &&& results_in(frame, result, 0)
                    &&& t.k.threads.slots@[slot] == (Thread {
                        state: ThreadState::Suspended,
                        ..before
                    })
                } else {
                    t == s && results_in(frame, result, abi::SYS_ERR_BUSY)
                }
            }
        }),
{
    let found = s.k.threads.resolve_control(s.k.task.owner(), frame.x@[0]);
    if found is Ok {
        let slot = found->Ok_0;
        assert(s.with_state(slot, ThreadState::Suspended).k.threads.slots@[slot].state
            == ThreadState::Suspended);
    }
}

/// A thread can be destroyed by its maker while it neither runs nor waits. Then its handle leads
/// nowhere, its place is free for another, and its IPC buffer is not mapped any more. Every other
/// thread and every other page is as it was.
pub proof fn law_destroy_ends_idle_thread(s: MachineView, cx: Entry, frame: TrapFrame)
    requires
        asks(s, cx, frame, abi::SYS_THREAD_DESTROY),
    ensures
        ({
            let found = s.k.threads.resolve_control(s.k.task.owner(), frame.x@[0]);
            let slot = found->Ok_0;
            let before = s.k.threads.slots@[slot];
            let (t, result, next) = s.svc_frame(cx, frame);
            if found is Err {
                &&& t == s
                &&& results_in(frame, result, abi::SYS_ERR_NOT_FOUND)
                &&& next == Dispatch::Return
            } else if before.state == ThreadState::Running || before.state
                == ThreadState::Blocked {
                &&& t == s
                &&& results_in(frame, result, abi::SYS_ERR_BUSY)
                &&& next == Dispatch::Return
            } else {
                &&& next == Dispatch::Return || next == Dispatch::Halt
                &&& next == Dispatch::Return ==> {
                    &&& results_in(frame, result, 0)
                    &&& !t.k.threads.slots@[slot].live()
                    &&& t.k.threads.slots@[slot].generation != before.generation
                    &&& t.k.threads.resolve_control(s.k.task.owner(), frame.x@[0]) is Err
                }
                &&& forall|i: int|
                    0 <= i < 16 && i != slot ==> #[trigger] t.k.threads.slots@[i]
                        == s.k.threads.slots@[i]
                &&& t.k.ipc == s.k.ipc
                &&& forall|r: u64, a: int|
                    (#[trigger] t.page_at(r, a)) == if before.ipc_pa != 0 && r
                        == before.vspace_root && mmu::in_run(a, before.ipc_va as int, 1) {
                        None
                    } else {
                        s.page_at(r, a)
                    }
            }
        }),
{
    let found = s.k.threads.resolve_control(s.k.task.owner(), frame.x@[0]);
    if let Ok(slot) = found {
        let thread = s.k.threads.slots@[slot];
        assert(thread.wf());
        crate::handle::law_generation_moves(thread.generation);
        vspace::lemma_unmap_run_frame(s, thread.vspace_root, thread.ipc_va as int, 1);
        mmu::law_unmap_run(s, thread.vspace_root, thread.ipc_va as int, 1);
        let u = s.unmap_run(thread.vspace_root, thread.ipc_va as int, 1).0;
        let (t, result, next) = s.svc_frame(cx, frame);
        if thread.state != ThreadState::Running && thread.state != ThreadState::Blocked {
            if thread.ipc_pa != 0 {
                assert(t.tables == u.tables);
                assert forall|r: u64, a: int| (#[trigger] t.page_at(r, a)) == if r
                    == thread.vspace_root && mmu::in_run(a, thread.ipc_va as int, 1) {
                    None
                } else {
                    s.page_at(r, a)
                } by {
                    assert(t.page_at(r, a) == u.page_at(r, a));
                }
            } else {
                assert(t.tables == s.tables);
                assert forall|r: u64, a: int| (#[trigger] t.page_at(r, a)) == s.page_at(r, a) by {}
            }
        }
    }
}

/// The time that a thread has used is what it was charged with, and what it has run since then if
/// it runs now.
pub proof fn law_runtime_counts_to_now(s: MachineView, cx: Entry, frame: TrapFrame)
    requires
        asks(s, cx, frame, abi::SYS_THREAD_RUNTIME),
    ensures
        ({
            let found = s.k.threads.resolve(s.k.task.owner(), frame.x@[0]);
            let thread = s.k.threads.slots@[found->Ok_0];
            let start = s.k.sched.cpus@[thread.running_cpu as int].active_start;
            let (t, result, next) = s.svc_frame(cx, frame);
            &&& t == s
            &&& next == Dispatch::Return
            &&& if found is Err {
                results_in(frame, result, found->Err_0)
            } else if thread.state == ThreadState::Running && thread.running_cpu < 4 && start
                != 0 {
                results_in(
                    frame,
                    result,
                    ((thread.runtime_ticks + cx.now - start) % 0x1_0000_0000_0000_0000) as u64,
                )
            } else {
                results_in(frame, result, thread.runtime_ticks)
            }
        }),
{
}


/// A thread can be made in an address space that the caller made, with an entry point that EL0 may
/// execute there and a stack that it may write there. It does not run before it is started. It is
/// found by its handle, took a place that no live thread had, and begins with the registers, the
/// priority and the processor that were asked for. Its IPC buffer was not mapped before and is
/// mapped there for it to read and write. No other thread is touched, whether one was made or not.
#[verifier::spinoff_prover]
#[verifier::rlimit(40)]
pub proof fn law_thread_in_space_is_as_asked(s: MachineView, cx: Entry, frame: TrapFrame)
    requires
        asks(s, cx, frame, abi::SYS_THREAD_CREATE_IN),
    ensures
        ({
            let config = cx.config;
            let at = frame.x@[1];
            let space = s.k.spaces.find_for(s.k.task.owner(), frame.x@[0]);
            let root = s.k.spaces.spaces@[space->Ok_0].root_pa;
            let (t, result, next) = s.svc_frame(cx, frame);
            if at % 8 != 0 || at + 40 > u64::MAX || !s.user_readable(
                s.k.active_table,
                at as int,
                40,
            ) || config.reserved != 0 || config.cpu >= s.k.smp.cpu_count || config.priority
                > config.max_control_priority || config.max_control_priority > 63 {
                &&& t == s
                &&& results_in(frame, result, abi::SYS_ERR_INVALID)
                &&& next == Dispatch::Return
            } else if space is Err || !s.user_executable(root, config.entry as int)
                || config.stack_pointer < 4096 || !s.user_writable(
                root,
                config.stack_pointer - 1,
                1,
            ) {
                &&& t == s
                &&& results_in(frame, result, abi::SYS_ERR_DENIED)
                &&& next == Dispatch::Return
            } else if forall|i: int| 1 <= i < 16 ==> (#[trigger] s.k.threads.slots@[i]).live() {
                &&& t == s
                &&& results_in(frame, result, abi::SYS_ERR_NO_SLOT)
                &&& next == Dispatch::Return
            } else if next == Dispatch::Return && !abi::sys_error(result.x@[0]) {
                let slot = t.k.threads.resolve(s.k.task.owner(), result.x@[0])->Ok_0;
                let thread = t.k.threads.slots@[slot];
                &&& results_in(frame, result, result.x@[0])
                &&& t.k.threads.resolve(s.k.task.owner(), result.x@[0]) is Ok
                &&& t.k.threads.resolve_control(s.k.task.owner(), result.x@[0]) == Ok::<int, u64>(
                    slot,
                )
                &&& 1 <= slot < 16
                &&& !s.k.threads.slots@[slot].live()
                &&& thread.state == ThreadState::Suspended
                &&& thread.vspace_handle == frame.x@[0]
                &&& thread.vspace_root == root
                &&& thread.context.elr_el1 == config.entry
                &&& thread.context.spsr_el1 == 0
                &&& thread.context.sp_el0 == config.stack_pointer
                &&& thread.context.x@[0] == config.arg0
                &&& thread.context.x@[1] == config.arg1
                &&& thread.context.x@[2] == result.x@[0]
                &&& thread.context.x@[3] == thread.ipc_va
                &&& forall|i: int| 4 <= i < 31 ==> #[trigger] thread.context.x@[i] == 0
                &&& thread.affinity_cpu == config.cpu
                &&& thread.base_priority == config.priority
                &&& thread.effective_priority == config.priority
                &&& thread.max_control_priority == config.max_control_priority
                &&& thread.running_cpu == NONE
                &&& thread.runtime_ticks == 0
                &&& thread.stack_pages == 0
                &&& mapped_as(
                    t,
                    root,
                    thread.ipc_va as int,
                    thread.ipc_pa as int,
                    1,
                    true,
                    false,
                    0,
                )
                &&& nothing_at(s, root, thread.ipc_va as int, 1)
                &&& access::only_run_changed(s, t, root, thread.ipc_va as int, 1)
                &&& others_undisturbed(s, t, slot, -1, -1)
                &&& t.k.ipc == s.k.ipc
                &&& t.k.threads.current == s.k.threads.current
                &&& t.k.spaces.spaces@[space->Ok_0].active_thread_count
                    == s.k.spaces.spaces@[space->Ok_0].active_thread_count + 1
            } else {
                t.k.threads == s.k.threads && t.k.ipc == s.k.ipc
            }
        }),
{
    let config = cx.config;
    let at = frame.x@[1];
    let owner = s.k.task.owner();
    let found = s.k.spaces.find_for(owner, frame.x@[0]);
    let (t, result, next) = s.svc_frame(cx, frame);
    lemma_free_slot(s, 1);
    if found is Ok && s.k.threads.free_slot(1) is Some {
        let space = found->Ok_0;
        let root = s.k.spaces.spaces@[space].root_pa;
        let slot = s.k.threads.free_slot(1)->0;
        physical::lemma_pages_alloc_ok(s.k.mem, 1);
        let (mem, page) = s.k.mem.page_alloc();
        if let Some(ipc_pa) = page {
            let a = s.with_mem(mem).op(HwOp::Zero { pa: ipc_pa, bytes: 4096 });
            assert(a.tables == s.tables);
            let ipc_va = crate::object::thread::ipc_va_of(slot);
            let flags = mmu::MMU_USER_RW;
            access::lemma_map_checked(a, root, ipc_va, ipc_pa as int, flags, 1, true, false, 0);
            vspace::lemma_map_checked_frame(a, root, ipc_va, ipc_pa as int, flags, 1);
            let (b, no_ipc) = a.map_checked(root, ipc_va, ipc_pa as int, flags, 1);
            vspace::lemma_unmap_run_frame(b, root, ipc_va, 1);
            let generation = s.k.threads.slots@[slot].generation;
            assert(s.k.threads.slots@[slot].wf());
            crate::handle::law_handle_round_trip(slot, generation, 16);
            crate::handle::law_handle_is_no_error(slot, generation);
            if no_ipc is None && next == Dispatch::Return && !abi::sys_error(result.x@[0]) {
                assert(t.tables == b.tables);
                assert forall|x: int| ipc_va <= x < ipc_va + 1
                    * 4096 implies #[trigger] t.page_at(root, x) == b.page_at(root, x) by {}
                access::lemma_mapped_stays(b, t, root, ipc_va, ipc_pa as int, 1, true, false, 0);
                assert forall|x: int| ipc_va <= x < ipc_va + 1
                    * 4096 implies #[trigger] s.page_at(root, x) is None by {
                    assert(a.page_at(root, x) is None);
                }
                assert forall|r: u64, x: int|
                    0 <= x < 0x80_0000_0000 && !(r == root && ipc_va <= x < ipc_va + 1
                        * 4096) implies #[trigger] t.page_at(r, x) == s.page_at(r, x) by {
                    assert(t.page_at(r, x) == b.page_at(r, x));
                    assert(a.page_at(r, x) == s.page_at(r, x));
                }
            }
        }
    }
}

} // verus!
