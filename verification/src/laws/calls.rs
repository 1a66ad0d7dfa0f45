//! Every system call keeps the ready sets and the running threads in order.
use crate::abi;
use crate::laws::scheduling::{
    in_range, lemma_drop_pages, lemma_elsewhere, lemma_endpoint_calls, lemma_free_slot,
    lemma_new_ready, lemma_notification_calls, lemma_other_thread, lemma_thread_calls, orderly,
    switched_to,
};
use crate::machine::{Dispatch, Entry, Kernel, MachineView};
use crate::memory::{mmu, vspace};
use crate::object::thread::{self, Thread, ThreadState};
use crate::syscall::dispatch::{self, TrapFrame};
use vstd::prelude::*;

verus! {

/// The calls on memory, devices and interrupts touch neither threads nor ready sets.
pub(crate) proof fn lemma_plain_calls(
    s: MachineView,
    cx: Entry,
    sysno: u64,
    a: u64,
    b: u64,
    c: u64,
    d: u64,
    e: u64,
)
    ensures
        s.svc(cx, sysno, a, b, c, d, e).0.k.threads == s.k.threads,
        s.svc(cx, sysno, a, b, c, d, e).0.k.sched == s.k.sched,
{
    if sysno == abi::SYS_MAP_MMIO && dispatch::rounded(b) is Some {
        let pages = dispatch::rounded(b)->0 / 4096;
        dispatch::lemma_map_run_frame(
            s,
            s.k.active_table,
            c as int,
            a as int,
            mmu::MMU_USER_DEV,
            pages,
        );
    } else if sysno == abi::SYS_UNMAP_MMIO && dispatch::rounded(b) is Some {
        let pages = dispatch::rounded(b)->0 / 4096;
        if let Some(i) = s.k.task.mmio_at(a, pages as u64, 0) {
            vspace::lemma_unmap_run_frame(
                s.with_task(s.k.task.without_mmio(i)),
                s.k.active_table,
                a as int,
                pages,
            );
        }
    } else if sysno == abi::SYS_DMA_ALLOC && dispatch::rounded(a) is Some {
        let bytes = dispatch::rounded(a)->0;
        let pages = bytes / 4096;
        let (mem, run) = s.k.mem.aligned_alloc(
            pages as u64,
            dispatch::dma_align_pages(b),
        );
        if let Some(pa) = run {
            let t = s.with_mem(mem).op(crate::hw::HwOp::Zero { pa, bytes: bytes as u64 });
            dispatch::lemma_map_run_frame(
                t.with_task(t.k.task.with_dma(c, pa, pages as u64)),
                t.k.active_table,
                c as int,
                pa as int,
                mmu::MMU_USER_DMA,
                pages,
            );
        }
    } else if sysno == abi::SYS_DMA_FREE && dispatch::rounded(b) is Some {
        let pages = dispatch::rounded(b)->0 / 4096;
        if let Some(i) = s.k.task.dma_at(a, pages as u64, 0) {
            vspace::lemma_unmap_run_frame(
                s.with_task(s.k.task.without_dma(i)),
                s.k.active_table,
                a as int,
                pages,
            );
        }
    } else if sysno == abi::SYS_FRAME_MAP {
        lemma_map_frame(s, s.k.task.owner(), s.k.spaces.handle_on(cx.cpu), a, b, c, d, e, true);
    } else if sysno == abi::SYS_FRAME_UNMAP {
        if let Some(found) = crate::handle::decoded(a, 128) {
            let entry = s.k.spaces.mappings@[found.0];
            vspace::lemma_unmap_run_frame(
                s,
                entry.target_root,
                entry.va as int,
                entry.pages as int,
            );
        }
    }
}

pub(crate) proof fn lemma_map_frame(
    s: MachineView,
    owner: u32,
    space: u64,
    frame_handle: u64,
    offset_pages: u64,
    pages: u64,
    va: u64,
    rights: u64,
    is_current: bool,
)
    ensures
        ({
            let t = s.map_frame(
                owner,
                space,
                frame_handle,
                offset_pages,
                pages,
                va,
                rights,
                is_current,
            ).0;
            t.k.threads == s.k.threads && t.k.sched == s.k.sched
        }),
{
    match (
        crate::memory::frame::entry_of(s.k.frames, owner, frame_handle),
        s.k.spaces.find_for(owner, space),
        vspace::flags_for(rights),
    ) {
        (Ok(frame_slot), Ok(slot), Some(flags)) => {
            let entry = s.k.frames@[frame_slot];
            let pa = (entry.pa + offset_pages * 4096) as u64;
            let t = if vspace::executes(rights) {
                s.op(crate::hw::HwOp::SyncForExec { pa, pages })
            } else {
                s
            };
            let counted = t.with_frames(
                crate::memory::frame::mapping_counted(t.k.frames, frame_slot, 1),
            ).with_spaces(t.k.spaces.mapping_added(slot));
            vspace::lemma_map_checked_frame(
                counted,
                s.k.spaces.spaces@[slot].root_pa,
                va as int,
                pa as int,
                flags,
                pages as int,
            );
        },
        _ => {},
    }
}

pub(crate) proof fn lemma_map_devices_frame(s: MachineView, root: u64, n: int)
    ensures
        s.map_devices(root, n).0.k == (Kernel { mem: s.map_devices(root, n).0.k.mem, ..s.k }),
    decreases n,
{
    if n > 0 {
        lemma_map_devices_frame(s, root, n - 1);
        let block = s.k.spaces.device_blocks@[n - 1];
        vspace::lemma_map_block_frame(
            s.map_devices(root, n - 1).0,
            root,
            block as int,
            block,
            mmu::MMU_DEV,
        );
    }
}

/// Address spaces come and go without a trace in threads and ready sets.
pub(crate) proof fn lemma_space_calls(s: MachineView, owner: u32, handle: u64)
    ensures
        s.vspace_create(owner).0.k.threads == s.k.threads,
        s.vspace_create(owner).0.k.sched == s.k.sched,
        s.vspace_destroy(owner, handle).0.k.threads == s.k.threads,
        s.vspace_destroy(owner, handle).0.k.sched == s.k.sched,
{
    reveal(MachineView::new_table);
    let (t, table) = s.new_table();
    if let Some(root) = table {
        vspace::lemma_map_blocks_frame(
            t,
            root,
            0,
            mmu::MMU_KERNEL,
            abi::USER_BASE as int,
            abi::USER_WINDOW_END as int,
            0xc00,
        );
        let u = t.map_blocks(
            root,
            0,
            mmu::MMU_KERNEL,
            abi::USER_BASE as int,
            abi::USER_WINDOW_END as int,
            0xc00,
        ).0;
        lemma_map_devices_frame(u, root, u.k.spaces.device_count as int);
    }
}

proof fn lemma_thread_create_in(
    s: MachineView,
    target: u64,
    config_va: u64,
    config: abi::ThreadCreateConfig,
)
    requires
        s.wf(),
        orderly(s),
    ensures
        orderly(s.thread_create_in(target, config_va, config).0),
{
    let made = s.thread_create_in(target, config_va, config).0;
    let (mem, page) = s.k.mem.page_alloc();
    let t = s.with_mem(mem);
    lemma_elsewhere(s, t);
    if s.thread_request_ok(
        config.cpu as u64,
        config.priority as u64,
        config.max_control_priority as u64,
    ) {
        match (s.k.spaces.find_for(s.k.task.owner(), target), s.k.threads.free_slot(1), page) {
            (Ok(space), Some(slot), Some(ipc_pa)) => {
                lemma_free_slot(s.k.threads, 1);
                let u = t.op(crate::hw::HwOp::Zero { pa: ipc_pa, bytes: 4096 });
                lemma_elsewhere(s, u);
                lemma_thread_create_in_mapped(u, slot, space, target, ipc_pa, config);
            },
            _ => {},
        }
    }
}

proof fn lemma_thread_create_in_mapped(
    s: MachineView,
    slot: int,
    space: int,
    target: u64,
    ipc_pa: u64,
    config: abi::ThreadCreateConfig,
)
    requires
        orderly(s),
        0 <= slot < 16,
        config.cpu < 4,
        config.priority < 64,
    ensures
        orderly(s.thread_create_in_mapped(slot, space, target, ipc_pa, config).0),
{
    let made = s.thread_create_in_mapped(slot, space, target, ipc_pa, config).0;
    let root = s.k.spaces.spaces@[space].root_pa;
    let ipc_va = thread::ipc_va_of(slot);
    let (t, no_ipc) = s.map_checked(root, ipc_va, ipc_pa as int, mmu::MMU_USER_RW, 1);
    vspace::lemma_map_checked_frame(s, root, ipc_va, ipc_pa as int, mmu::MMU_USER_RW, 1);
    vspace::lemma_unmap_run_frame(t, root, ipc_va, 1);
    if no_ipc is Some || t.k.spaces.spaces@[space].active_thread_count == u16::MAX {
        lemma_elsewhere(s, made);
    } else {
        let u = t.with_spaces(t.k.spaces.thread_added(space));
        lemma_elsewhere(s, u);
        lemma_other_thread(u, made, slot, made.k.threads.slots@[slot]);
    }
}

proof fn lemma_builder_calls(s: MachineView, cx: Entry, frame: TrapFrame)
    requires
        s.wf(),
        orderly(s),
        cx.cpu < 4,
    ensures
        orderly(s.builder_svc(cx, frame).0),
{
    let sysno = frame.x@[8];
    let a = frame.x@[0];
    let owner = s.k.task.owner();
    let made = s.builder_svc(cx, frame).0;
    if sysno == abi::SYS_VSPACE_CREATE || sysno == abi::SYS_VSPACE_DESTROY {
        lemma_space_calls(s, owner, a);
        lemma_elsewhere(s, made);
    } else if sysno == abi::SYS_FRAME_MAP_TO {
        lemma_map_frame(
            s,
            owner,
            a,
            frame.x@[1],
            frame.x@[2],
            frame.x@[3],
            frame.x@[4],
            frame.x@[5],
            false,
        );
        lemma_elsewhere(s, made);
    } else if sysno == abi::SYS_THREAD_CREATE_IN {
        lemma_thread_create_in(s, a, frame.x@[1], cx.config);
    } else {
        law_control_keeps_order(s, cx, a);
    }
}

/// No system call loses a ready thread or lets one run in two places: where every ready thread
/// was announced and every running one in its place, so they are afterwards. The processor goes
/// on with the thread that runs there.
pub proof fn law_calls_keep_order(s: MachineView, cx: Entry, frame: TrapFrame)
    requires
        s.wf(),
        orderly(s),
        s.k.threads.runs(cx.cpu as int),
    ensures
        orderly(s.svc_frame(cx, frame).0),
        switched_to(s.svc_frame(cx, frame).0, cx, s.svc_frame(cx, frame).2),
{
    let sysno = frame.x@[8];
    if dispatch::is_thread_call(sysno) {
        lemma_thread_calls(s, cx, frame);
    } else if dispatch::is_endpoint_call(sysno) {
        lemma_endpoint_calls(s, cx, frame);
    } else if dispatch::is_notification_call(sysno) {
        lemma_notification_calls(s, cx, frame);
    } else if dispatch::is_builder_call(sysno) {
        lemma_builder_calls(s, cx, frame);
        assert(s.builder_svc(cx, frame).2 == Dispatch::Return || s.builder_svc(cx, frame).2
            == Dispatch::Halt);
    } else {
        lemma_plain_calls(
            s,
            cx,
            sysno,
            frame.x@[0],
            frame.x@[1],
            frame.x@[2],
            frame.x@[3],
            frame.x@[4],
        );
        lemma_elsewhere(s, s.svc_frame(cx, frame).0);
    }
}

/// Starting, suspending and destroying a thread by its handle keeps the order too.
pub proof fn law_control_keeps_order(s: MachineView, cx: Entry, handle: u64)
    requires
        s.wf(),
        orderly(s),
        cx.cpu < 4,
    ensures
        orderly(s.thread_start(cx, handle).0),
        orderly(s.thread_suspend(handle).0),
        orderly(s.thread_destroy(handle).0),
{
    match s.k.threads.resolve_control(s.k.task.owner(), handle) {
        Err(_) => {},
        Ok(slot) => {
            let thread = s.k.threads.slots@[slot];
            assert(0 <= slot < 16 && in_range(thread));
            lemma_new_ready(s, cx, slot, Thread { state: ThreadState::Ready, ..thread });
            lemma_other_thread(
                s,
                s.with_state(slot, ThreadState::Suspended),
                slot,
                Thread { state: ThreadState::Suspended, ..thread },
            );
            let (t, fault) = s.drop_ipc(thread.vspace_root, thread);
            lemma_drop_pages(
                s,
                thread.vspace_root,
                thread.ipc_va as int,
                thread.ipc_pa,
                if thread.ipc_pa != 0 {
                    1
                } else {
                    0
                },
            );
            lemma_elsewhere(s, t);
            let gone = Thread {
                running_cpu: thread.running_cpu,
                ready_sequence: thread.ready_sequence,
                runtime_ticks: thread.runtime_ticks,
                ..Thread::empty(
                    crate::handle::generation_after(thread.generation),
                    ThreadState::Exited,
                )
            };
            lemma_other_thread(
                t,
                t.with_threads(t.k.threads.with(slot, gone)),
                slot,
                gone,
            );
            if thread.state != ThreadState::Running && thread.state != ThreadState::Blocked
                && fault is None {
                lemma_other_thread(t, s.thread_destroy(handle).0, slot, gone);
            }
        },
    }
}

} // verus!
