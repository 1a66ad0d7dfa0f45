//! What a task is given: interrupts that it was granted, and memory that holds nothing of others.
use crate::hw::HwOp;
use crate::interrupt::gic;
use crate::laws::delivery;
use crate::laws::delivery::later;
use crate::laws::resources;
use crate::laws::scheduling;
use crate::machine::{Entry, Fault, MachineView};
use crate::memory::mmu;
use crate::memory::physical;
use crate::memory::physical::FreeRange;
use crate::syscall::dispatch;
use crate::syscall::dispatch::TrapFrame;
use vstd::prelude::*;

verus! {

/// An interrupt is bound only if the task was granted it and nobody has bound it, to a
/// notification of the task. A refused request changes nothing.
pub proof fn law_irq_needs_grant(
    s: MachineView,
    cx: Entry,
    intid: u64,
    notification: u64,
    badge: u64,
    target_cpu: u64,
)
    requires
        s.wf(),
    ensures
        ({
            let line = intid as u32;
            let (t, r) = s.sys_irq_bind(cx, intid, notification, badge, target_cpu);
            &&& r == 0 ==> {
                &&& 32 <= intid <= u32::MAX
                &&& s.k.task.active
                &&& s.k.task.irq_grant(line, 0) is Some
                &&& s.k.task.binding(line, 0) is None
                &&& s.k.ipc.find_notification(s.k.task.owner(), notification) is Ok
                &&& t.k.task.binding(line, 0) is Some
            }
            &&& r != 0 ==> t == s
        }),
{
    let line = intid as u32;
    let (t, r) = s.sys_irq_bind(cx, intid, notification, badge, target_cpu);
    if r == 0 {
        lemma_bound_last(s, t, line, 0);
    }
}

proof fn lemma_bound_last(s: MachineView, t: MachineView, line: u32, from: int)
    requires
        0 <= from <= s.k.task.irq_binding_count < 16,
        t.k.task.irq_binding_count == s.k.task.irq_binding_count + 1,
        t.k.task.irq_bindings@[s.k.task.irq_binding_count as int].intid == line,
    ensures
        t.k.task.binding(line, from) is Some,
    decreases s.k.task.irq_binding_count - from,
{
    if from < s.k.task.irq_binding_count {
        lemma_bound_last(s, t, line, from + 1);
    }
}

/// A bound interrupt that comes in is disabled before it is ended, waits for an acknowledgement,
/// and can be acknowledged once. Only then is it enabled again.
pub proof fn law_interrupt_waits_for_ack(
    s: MachineView,
    cx: Entry,
    raw: u32,
    frame: TrapFrame,
    i: int,
)
    requires
        s.wf(),
        cx.cpu < 4,
        s.k.gic.is_ready(),
        raw % 1024 < 1020,
        raw % 1024 != gic::SGI_RESCHEDULE,
        raw % 1024 != gic::SGI_TLB_SHOOTDOWN,
        raw % 1024 != gic::SGI_TASK_STOP,
        s.k.timer.intid != raw % 1024,
        s.k.task.binding(raw % 1024, 0) == Some(i),
        frame.spsr_el1 % 16 == 0 ==> s.k.threads.runs(cx.cpu as int),
    ensures
        ({
            let line = raw % 1024;
            let t = s.irq(cx, raw, frame).0;
            let (u, first) = t.sys_irq_ack(line as u64);
            let (v, second) = u.sys_irq_ack(line as u64);
            &&& later(s.with_ops(s.k.gic.disable_ops(line) + s.k.gic.eoir_ops(raw)), t)
            &&& t.k.task.irq_bindings@[i].awaiting_ack
            &&& first == 0
            &&& u.ops == t.ops + t.k.gic.enable_ops(line)
            &&& !u.k.task.irq_bindings@[i].awaiting_ack
            &&& second == 1
            &&& v == u
        }),
{
    let line = raw % 1024;
    let quiet = s.with_ops(s.k.gic.disable_ops(line)).with_ops(s.k.gic.eoir_ops(raw));
    assert(quiet.ops =~= s.ops + (s.k.gic.disable_ops(line) + s.k.gic.eoir_ops(raw)));
    let q = quiet.with_task(quiet.k.task.with_awaiting(i, true));
    let binding = s.k.task.irq_bindings@[i];
    let w = q.signal(cx, binding.notification, binding.badge).0;
    lemma_signal_later(q, cx, binding.notification, binding.badge);
    let t = s.irq(cx, raw, frame).0;
    if frame.spsr_el1 % 16 == 0 {
        delivery::lemma_preempt_later(w, cx, frame);
    } else {
        lemma_idle_later(w, cx);
    }
    delivery::lemma_later(q, w, t);
    assert(t.k.task == q.k.task);
    resources::lemma_binding(s.k.task, line, 0);
    resources::lemma_binding_kept(s.k.task, line, i, true, 0);
    resources::lemma_binding(t.k.task, line, 0);
    resources::lemma_binding_kept(t.k.task, line, i, false, 0);
}

pub(crate) proof fn lemma_signal_later(s: MachineView, cx: Entry, handle: u64, badge: u64)
    ensures
        later(s, s.signal(cx, handle, badge).0),
        s.signal(cx, handle, badge).0.k.task == s.k.task,
        s.signal(cx, handle, badge).0.k.threads.current == s.k.threads.current,
{
    if badge != 0 {
        if let Ok(slot) = s.k.ipc.find_notification(s.k.task.owner(), handle) {
            let notification = s.k.ipc.notifications@[slot];
            let woken = s.with_notification(
                slot,
                crate::object::ipc::Notification {
                    pending: 0,
                    waiters: notification.waiters.popped(),
                    ..notification
                },
            );
            delivery::lemma_wake_later(
                woken,
                cx,
                notification.waiters.slots@[0] as int,
                notification.pending | badge,
            );
        }
    }
}

proof fn lemma_idle_later(s: MachineView, cx: Entry)
    ensures
        later(s, s.activate_if_idle(cx).0),
        s.activate_if_idle(cx).0.k.task == s.k.task,
{
    let t = s.searched(cx.cpu as int);
    scheduling::lemma_next_in_range(s, cx.cpu as int);
    if let Some(slot) = s.next_thread(cx.cpu as int) {
        delivery::lemma_activate_later(t, cx, slot);
        delivery::lemma_later(s, t, t.activate(cx, slot).0);
    }
}

/// The operations of `a` come first in `b`.
pub open spec fn begins(a: Seq<HwOp>, b: Seq<HwOp>) -> bool {
    a.len() <= b.len() && forall|i: int| 0 <= i < a.len() ==> #[trigger] b[i] == a[i]
}

pub(crate) proof fn lemma_map_run_begins(s: MachineView, root: u64, va: int, pa: int, flags: u64, n: int)
    ensures
        begins(s.ops, s.map_run(root, va, pa, flags, n).0.ops),
    decreases n,
{
    reveal(MachineView::build);
    reveal(MachineView::map_run);
    if n > 0 {
        lemma_map_run_begins(s, root, va, pa, flags, n - 1);
        let t = s.map_run(root, va, pa, flags, n - 1).0;
        let at = va + (n - 1) * 4096;
        if let Some(i) = mmu::table_of(t.tables, root, 0) {
            assert(begins(t.ops, t.build(i, at).0.ops));
        }
    }
}

pub(crate) proof fn lemma_checked_run_begins(s: MachineView, root: u64, va: int, pa: int, flags: u64, n: int)
    ensures
        begins(s.ops, s.checked_run(root, va, pa, flags, n).0.ops),
    decreases n,
{
    reveal(MachineView::build);
    if n > 0 {
        lemma_checked_run_begins(s, root, va, pa, flags, n - 1);
        let t = s.checked_run(root, va, pa, flags, n - 1).0;
        let at = va + (n - 1) * 4096;
        if let Some(i) = mmu::table_of(t.tables, root, 0) {
            assert(begins(t.ops, t.build(i, at).0.ops));
        }
    }
}

/// A frame that is handed out was free and is filled with zeros.
pub proof fn law_frame_is_zeroed(s: MachineView, owner: u32, pages: u64, align_pages: u64)
    requires
        s.wf(),
        s.k.mem.disjoint(),
        !crate::abi::sys_error(s.frame_allocate(owner, pages, align_pages).1),
    ensures
        ({
            let (t, handle) = s.frame_allocate(owner, pages, align_pages);
            let (slot, _) = crate::handle::decoded(handle, 64)->0;
            let frame = t.k.frames@[slot as int];
            &&& frame.owner == owner && frame.pages == pages
            &&& forall|a: int|
                (FreeRange { base: frame.pa, pages }).covers(a) ==> s.k.mem.is_free(a)
                    && !t.k.mem.is_free(a)
            &&& t.ops == s.ops.push(HwOp::Zero { pa: frame.pa, bytes: (pages * 4096) as u64 })
        }),
{
    let slot = crate::memory::frame::free_entry(s.k.frames, 0)->0;
    lemma_free_entry(s, 0);
    assert(s.k.frames@[slot].wf());
    crate::handle::law_handle_round_trip(slot, s.k.frames@[slot].generation, 64);
    physical::law_aligned_alloc(s.k.mem, pages, align_pages);
}

proof fn lemma_free_entry(s: MachineView, from: int)
    requires
        0 <= from,
    ensures
        crate::memory::frame::free_entry(s.k.frames, from) matches Some(slot) ==> from <= slot
            < 64,
    decreases 64 - from,
{
    if from < 64 {
        lemma_free_entry(s, from + 1);
    }
}

/// DMA memory that is handed out was free, and is filled with zeros before it is mapped.
pub proof fn law_dma_is_zeroed(s: MachineView, size: u64, alignment: u64, user_va: u64, pa: u64)
    requires
        s.wf(),
        s.k.mem.disjoint(),
        s.sys_dma_alloc(size, alignment, user_va).1 == Ok::<u64, Fault>(pa),
        pa != u64::MAX,
    ensures
        ({
            let t = s.sys_dma_alloc(size, alignment, user_va).0;
            let bytes = dispatch::rounded(size)->0;
            &&& forall|a: int|
                (FreeRange { base: pa, pages: (bytes / 4096) as u64 }).covers(a)
                    ==> s.k.mem.is_free(a)
            &&& begins(s.ops.push(HwOp::Zero { pa, bytes: bytes as u64 }), t.ops)
        }),
{
    let bytes = dispatch::rounded(size)->0;
    let pages = bytes / 4096;
    physical::law_aligned_alloc(s.k.mem, pages as u64, dispatch::dma_align_pages(alignment));
    let (mem, run) = s.k.mem.aligned_alloc(pages as u64, dispatch::dma_align_pages(alignment));
    let t = s.with_mem(mem).op(HwOp::Zero { pa, bytes: bytes as u64 });
    lemma_map_run_begins(
        t.with_task(t.k.task.with_dma(user_va, pa, pages as u64)),
        t.k.active_table,
        user_va as int,
        pa as int,
        mmu::MMU_USER_DMA,
        pages,
    );
}

/// Stack and IPC buffer of a new thread were free, and are filled with zeros before they are
/// mapped.
pub proof fn law_thread_memory_is_zeroed(
    s: MachineView,
    cx: Entry,
    entry: u64,
    arg: u64,
    cpu: u64,
    urgency: u64,
    mcp: u64,
    handle: u64,
)
    requires
        s.wf(),
        s.k.mem.disjoint(),
        s.thread_create(cx, entry, arg, cpu, urgency, mcp).1 == Ok::<u64, Fault>(handle),
        !crate::abi::sys_error(handle),
    ensures
        ({
            let t = s.thread_create(cx, entry, arg, cpu, urgency, mcp).0;
            let thread = t.k.threads.slots@[s.k.threads.free_slot(1)->0];
            &&& forall|a: int|
                (FreeRange { base: thread.stack_pa, pages: 64 }).covers(a) || (FreeRange {
                    base: thread.ipc_pa,
                    pages: 1,
                }).covers(a) ==> s.k.mem.is_free(a)
            &&& begins(
                s.ops.push(HwOp::Zero { pa: thread.stack_pa, bytes: 0x4_0000 }).push(
                    HwOp::Zero { pa: thread.ipc_pa, bytes: 4096 },
                ),
                t.ops,
            )
        }),
{
    reveal(MachineView::map_checked);
    let slot = s.k.threads.free_slot(1)->0;
    lemma_free_slot(s, 1);
    physical::law_pages_alloc(s.k.mem, 64);
    let (mem, stack) = s.k.mem.pages_alloc(64);
    let a = s.with_mem(mem);
    let (mem2, page) = a.k.mem.page_alloc();
    physical::law_pages_alloc(mem, 1);
    let stack_pa = stack->0;
    let ipc_pa = page->0;
    let b = a.with_mem(mem2).op(HwOp::Zero { pa: stack_pa, bytes: 0x4_0000 }).op(
        HwOp::Zero { pa: ipc_pa, bytes: 4096 },
    );
    let root = b.k.active_table;
    let stack_va = crate::object::thread::stack_base_of(slot);
    let ipc_va = crate::object::thread::ipc_va_of(slot);
    lemma_checked_run_begins(b, root, stack_va, stack_pa as int, mmu::MMU_USER_RW, 64);
    let c = b.map_checked(root, stack_va, stack_pa as int, mmu::MMU_USER_RW, 64).0;
    lemma_checked_run_begins(c, root, ipc_va, ipc_pa as int, mmu::MMU_USER_RW, 1);
    let d = c.map_checked(root, ipc_va, ipc_pa as int, mmu::MMU_USER_RW, 1).0;
    assert(begins(b.ops, c.ops));
    assert(begins(c.ops, d.ops));
}

proof fn lemma_free_slot(s: MachineView, from: int)
    requires
        0 <= from,
    ensures
        s.k.threads.free_slot(from) matches Some(slot) ==> from <= slot < 16,
    decreases 16 - from,
{
    if from < 16 {
        lemma_free_slot(s, from + 1);
    }
}

} // verus!
