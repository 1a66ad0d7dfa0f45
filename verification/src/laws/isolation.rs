//! Calls on memory, address spaces and threads, and the end of the task, keep every page of memory
//! to at most one use.
use crate::abi;
use crate::hw::HwOp;
use crate::interrupt::gic;
use crate::laws::memory::{
    held, is_object, lemma_aligned_alloc, lemma_drop_table, lemma_given_back, lemma_map_blocks,
    lemma_map_checked, lemma_map_devices, lemma_map_run, lemma_moves, lemma_new_table,
    lemma_objects, lemma_ops, lemma_pages_alloc, lemma_released, lemma_settled, lemma_unmap_run,
    lemma_isolated, lemma_sound, lemma_unmap_tables, memory_isolated, nothing, object_pages, run, shaped, sound,
    table_pages, Holder,
};
use crate::laws::resources::same_frames;
use crate::laws::stillness::{
    self, lemma_after_block, lemma_cancel, lemma_ready, lemma_still, same_memory, still,
};
use crate::machine::{Dispatch, Entry, Kernel, MachineView};
use crate::memory::frame::{self, FrameEntry};
use crate::memory::mmu;
use crate::memory::physical::{self, FreeRange, PhysicalMemory};
use crate::memory::vspace;
use crate::object::task::TaskResources;
use crate::object::thread::{self, Thread, ThreadTable};
use crate::syscall::dispatch::{self, TrapFrame};
use crate::util::ArrayUpdate;
use vstd::prelude::*;

verus! {

/// Making a frame gives it pages that were free and had no other use.
proof fn lemma_allocate_takes_free_pages(
    s: MachineView,
    owner: u32,
    pages: u64,
    align_pages: u64,
)
    requires
        s.wf(),
        sound(s, Seq::empty()),
    ensures
        sound(s.frame_allocate(owner, pages, align_pages).0, Seq::empty()),
{
    let none: Seq<FreeRange> = Seq::empty();
    if frame::request_ok(owner, pages, align_pages) {
        frame::lemma_free_entry(s.k.frames, 0);
        if let Some(slot) = frame::free_entry(s.k.frames, 0) {
            lemma_aligned_alloc(s, none, pages, align_pages);
            let (mem, got) = s.k.mem.aligned_alloc(pages, align_pages);
            if let Some(pa) = got {
                let n = s.frame_allocate(owner, pages, align_pages).0;
                assert(none.push(run(pa, pages)) =~= seq![run(pa, pages)]);
                let places = seq![Holder::Frame(slot)];
                assert(places[0] == Holder::Frame(slot));
                lemma_settled(s.with_mem(mem), n, seq![run(pa, pages)], places);
            }
        }
    }
}

/// Giving a frame back ends its use of its pages, and no other.
proof fn lemma_free_ends_one_use(s: MachineView, owner: u32, handle: u64)
    requires
        s.wf(),
        sound(s, Seq::empty()),
        s.frame_free(owner, handle).1 is Ok,
    ensures
        sound(s.frame_free(owner, handle).0, Seq::empty()),
{
    let n = s.frame_free(owner, handle).0;
    if owner != 0 {
        if let Ok(slot) = frame::entry_of(s.k.frames, owner, handle) {
            let entry = s.k.frames@[slot];
            assert(entry.wf());
            if entry.mapping_count == 0 {
                let runs = seq![(entry.pa, entry.pages)];
                let places = seq![Holder::Frame(slot)];
                assert(places[0] == Holder::Frame(slot));
                reveal_with_fuel(PhysicalMemory::freed_runs, 2);
                assert(runs[0] == (entry.pa, entry.pages));
                lemma_given_back(s, n, places, runs);
            }
        }
    }
}

/// Counts of mappings are no use of pages.
proof fn lemma_counts(s: MachineView, n: MachineView, spare: Seq<FreeRange>)
    requires
        sound(s, spare),
        n.tables == s.tables,
        n.k == (Kernel { frames: n.k.frames, spaces: n.k.spaces, ..s.k }),
        same_frames(s.k.frames, n.k.frames),
    ensures
        sound(n, spare),
{
    assert forall|h: Holder| #[trigger] object_pages(n.k, h) == object_pages(s.k, h) by {
        if let Holder::Frame(i) = h {
            if 0 <= i < 64 {
                assert(n.k.frames@[i] == (FrameEntry {
                    mapping_count: n.k.frames@[i].mapping_count,
                    ..s.k.frames@[i]
                }));
            }
        }
    }
    lemma_objects(s, n, spare);
}

/// Mapping a frame takes pages for tables only where they were free.
proof fn lemma_map_frame_takes_free_pages(
    s: MachineView,
    owner: u32,
    space: u64,
    frame_handle: u64,
    offset_pages: u64,
    pages: u64,
    va: u64,
    rights: u64,
    arena_only: bool,
)
    requires
        s.wf(),
        sound(s, Seq::empty()),
    ensures
        sound(
            s.map_frame(
                owner,
                space,
                frame_handle,
                offset_pages,
                pages,
                va,
                rights,
                arena_only,
            ).0, Seq::empty()),
{
    let none: Seq<FreeRange> = Seq::empty();
    let n = s.map_frame(
        owner,
        space,
        frame_handle,
        offset_pages,
        pages,
        va,
        rights,
        arena_only,
    ).0;
    match (
        frame::entry_of(s.k.frames, owner, frame_handle),
        s.k.spaces.find_for(owner, space),
        vspace::flags_for(rights),
    ) {
        (Ok(frame_slot), Ok(slot), Some(flags)) => {
            let entry = s.k.frames@[frame_slot];
            let pa = (entry.pa + offset_pages * 4096) as u64;
            let t = if vspace::executes(rights) {
                s.op(HwOp::SyncForExec { pa, pages })
            } else {
                s
            };
            lemma_ops(s, t, none);
            let counted = t.with_frames(
                frame::mapping_counted(t.k.frames, frame_slot, 1),
            ).with_spaces(t.k.spaces.mapping_added(slot));
            lemma_counts(t, counted, none);
            let root = s.k.spaces.spaces@[slot].root_pa;
            lemma_map_checked(counted, none, root, va as int, pa as int, flags, pages as int);
            let u = counted.map_checked(root, va as int, pa as int, flags, pages as int).0;
            let v = u.uncount_mapping(owner, space, frame_handle);
            lemma_counts(u, v, none);
            if n.k.spaces.mappings != s.k.spaces.mappings {
                lemma_counts(u, n, none);
            }
        },
        _ => {},
    }
}

/// Taking a mapping away changes no use of pages.
proof fn lemma_unmap_moves_no_pages(s: MachineView, owner: u32, handle: u64)
    requires
        s.wf(),
        sound(s, Seq::empty()),
    ensures
        sound(s.unmap_handle(owner, handle).0, Seq::empty()),
{
    let none: Seq<FreeRange> = Seq::empty();
    let n = s.unmap_handle(owner, handle).0;
    if let Some(found) = crate::handle::decoded(handle, 128) {
        let entry = s.k.spaces.mappings@[found.0];
        lemma_unmap_run(s, none, entry.target_root, entry.va as int, entry.pages as int);
        let t = s.unmap_run(entry.target_root, entry.va as int, entry.pages as int).0;
        lemma_ops(t, t.op(HwOp::FlushTlb), none);
        if n.k.spaces != s.k.spaces {
            lemma_counts(t.op(HwOp::FlushTlb), n, none);
        }
    }
}

/// An address space is made of pages that were free, and all of them come back with it.
proof fn lemma_spaces_keep_isolation(s: MachineView, owner: u32, handle: u64)
    requires
        s.wf(),
        sound(s, Seq::empty()),
    ensures
        s.vspace_create(owner).1 is Ok ==> sound(s.vspace_create(owner).0, Seq::empty()),
        s.vspace_destroy(owner, handle).1 is Ok ==> sound(
            s.vspace_destroy(owner, handle).0, Seq::empty()),
{
    let none: Seq<FreeRange> = Seq::empty();
    if s.vspace_create(owner).1 is Ok {
        let n = s.vspace_create(owner).0;
        lemma_new_table(s, none);
        let (t, table) = s.new_table();
        if let Some(root) = table {
            lemma_map_blocks(
                t,
                none,
                root,
                0,
                mmu::MMU_KERNEL,
                abi::USER_BASE as int,
                abi::USER_WINDOW_END as int,
                0xc00,
            );
            let (u, fault) = t.map_blocks(
                root,
                0,
                mmu::MMU_KERNEL,
                abi::USER_BASE as int,
                abi::USER_WINDOW_END as int,
                0xc00,
            );
            lemma_map_devices(u, none, root, u.k.spaces.device_count as int);
            let (v, missing) = u.map_devices(root, u.k.spaces.device_count as int);
            if s.k.spaces.free_space(1) is Some && owner != 0 {
                if fault is Some {
                    lemma_drop_table(u, root);
                } else if missing is Some {
                    lemma_drop_table(v, root);
                } else {
                    lemma_objects(v, n, none);
                }
            }
        }
    }
    if s.vspace_destroy(owner, handle).1 is Ok {
        let n = s.vspace_destroy(owner, handle).0;
        if let Ok(slot) = s.k.spaces.find_for(owner, handle) {
            let root = s.k.spaces.spaces@[slot].root_pa;
            if n.k.spaces != s.k.spaces || n.tables != s.tables {
                lemma_drop_table(s, root);
                lemma_objects(s.drop_table(root).0, n, none);
            }
        }
    }
}

/// DMA memory of the task is made of pages that were free.
proof fn lemma_dma_takes_free_pages(s: MachineView, size: u64, alignment: u64, user_va: u64)
    requires
        s.wf(),
        sound(s, Seq::empty()),
    ensures
        s.sys_dma_alloc(size, alignment, user_va).1 is Ok ==> sound(
            s.sys_dma_alloc(size, alignment, user_va).0, Seq::empty()),
{
    reveal(sound);
    let none: Seq<FreeRange> = Seq::empty();
    if s.sys_dma_alloc(size, alignment, user_va).1 is Ok && size != 0 && crate::util::power_of_two(
        alignment as int,
    ) && alignment <= 0x20_0000 && user_va % 4096 == 0 && dispatch::rounded(size) is Some {
        let n = s.sys_dma_alloc(size, alignment, user_va).0;
        let bytes = dispatch::rounded(size)->0;
        let pages = (bytes / 4096) as u64;
        let align_pages = dispatch::dma_align_pages(alignment);
        lemma_aligned_alloc(s, none, pages, align_pages);
        let (mem, got) = s.k.mem.aligned_alloc(pages, align_pages);
        let t = s.with_mem(mem);
        if let Some(pa) = got {
            let spare = seq![run(pa, pages)];
            assert(none.push(run(pa, pages)) =~= spare);
            let u = t.op(HwOp::Zero { pa, bytes: bytes as u64 });
            lemma_ops(t, u, spare);
            let count = u.k.task.dma_count as int;
            if s.k.task.available(user_va, pages) {
                if count >= 64 {
                    let runs = seq![(pa, pages)];
                    physical::law_aligned_alloc(s.k.mem, pages, align_pages);
                    assert(runs[0] == (pa, pages));
                    lemma_released(u, spare, runs);
                } else {
                    let v = u.with_task(u.k.task.with_dma(user_va, pa, pages));
                    let places = seq![Holder::Dma(count)];
                    assert(places[0] == Holder::Dma(count));
                    assert forall|h: Holder|
                        (#[trigger] object_pages(v.k, h)).pages != 0 && !places.contains(
                            h,
                        ) implies object_pages(v.k, h) == object_pages(u.k, h) by {
                        if h == Holder::Dma(count) {
                            assert(places.contains(h));
                        }
                    }
                    lemma_settled(u, v, spare, places);
                    lemma_map_run(
                        v,
                        none,
                        u.k.active_table,
                        user_va as int,
                        pa as int,
                        mmu::MMU_USER_DMA,
                        pages as int,
                    );
                    let w = v.map_run(
                        u.k.active_table,
                        user_va as int,
                        pa as int,
                        mmu::MMU_USER_DMA,
                        pages as int,
                    ).0;
                    lemma_ops(w, w.op(HwOp::FlushTlb), none);
                }
            }
        }
    }
}

/// Giving DMA memory back ends its use, and no other.
proof fn lemma_dma_free_ends_one_use(s: MachineView, user_va: u64, size: u64)
    requires
        s.wf(),
        s.k.task.active,
        sound(s, Seq::empty()),
    ensures
        s.sys_dma_free(user_va, size).1 is Ok ==> sound(
            s.sys_dma_free(user_va, size).0, Seq::empty()),
{
    reveal(sound);
    let none: Seq<FreeRange> = Seq::empty();
    if s.sys_dma_free(user_va, size).1 is Ok && user_va % 4096 == 0 && size != 0
        && dispatch::rounded(size) is Some {
        let n = s.sys_dma_free(user_va, size).0;
        let pages = (dispatch::rounded(size)->0 / 4096) as u64;
        if let Some(i) = s.k.task.dma_at(user_va, pages, 0) {
            lemma_dma_at(s.k.task, user_va, pages, 0);
            let last = s.k.task.dma_count - 1;
            let entry = s.k.task.dma@[i];
            assert(entry.wf());
            let t = s.with_task(s.k.task.without_dma(i));
            let spare = seq![run(entry.pa, entry.pages)];
            let from = |h: Holder|
                if h == Holder::Spare(0) {
                    Holder::Dma(i)
                } else if h == Holder::Dma(i) {
                    Holder::Dma(last)
                } else {
                    h
                };
            assert forall|h: Holder| (#[trigger] held(t, spare, h)).pages != 0 implies held(
                t,
                spare,
                h,
            ) == held(s, none, from(h)) by {}
            assert forall|g: Holder, h: Holder|
                g != h && (#[trigger] held(t, spare, g)).pages != 0 && (#[trigger] held(
                    t,
                    spare,
                    h,
                )).pages != 0 implies from(g) != from(h) by {
                assert(held(t, spare, Holder::Dma(last)) == nothing());
            }
            lemma_moves(s, none, t, spare, from, |h: Holder| false);
            lemma_unmap_run(t, spare, s.k.active_table, user_va as int, pages as int);
            let (u, removed) = t.unmap_run(s.k.active_table, user_va as int, pages as int);
            if removed == pages {
                let v = u.op(HwOp::FlushTlb);
                lemma_ops(u, v, spare);
                let runs = seq![(entry.pa, entry.pages)];
                assert(runs[0] == (entry.pa, entry.pages));
                lemma_released(v, spare, runs);
            } else {
                lemma_forgotten(u, spare);
            }
        }
    }
}

/// A run on its way may be lost.
pub(crate) proof fn lemma_forgotten(s: MachineView, spare: Seq<FreeRange>)
    requires
        sound(s, spare),
    ensures
        sound(s, Seq::empty()),
{
    reveal(sound);
    let none: Seq<FreeRange> = Seq::empty();
    assert forall|h: Holder| (#[trigger] held(s, none, h)).pages != 0 implies held(s, none, h)
        == held(s, spare, h) by {}
    lemma_moves(s, spare, s, none, |h: Holder| h, |h: Holder| false);
}

proof fn lemma_dma_at(task: TaskResources, va: u64, pages: u64, from: int)
    requires
        0 <= from,
    ensures
        match task.dma_at(va, pages, from) {
            Some(i) => from <= i < task.dma_count && task.dma@[i].pages == pages,
            None => true,
        },
    decreases task.dma_count - from,
{
    if from < task.dma_count && !(task.dma@[from].va == va && task.dma@[from].pages == pages) {
        lemma_dma_at(task, va, pages, from + 1);
    }
}

/// Mapping and unmapping device ranges takes pages for tables only where they were free.
proof fn lemma_mmio_keeps_isolation(s: MachineView, paddr: u64, size: u64, user_va: u64)
    requires
        s.wf(),
        sound(s, Seq::empty()),
    ensures
        s.sys_map_mmio(paddr, size, user_va).1 is Ok ==> sound(
            s.sys_map_mmio(paddr, size, user_va).0, Seq::empty()),
        sound(s.sys_unmap_mmio(user_va, size).0, Seq::empty()),
{
    let none: Seq<FreeRange> = Seq::empty();
    if dispatch::rounded(size) is Some {
        let pages = dispatch::rounded(size)->0 / 4096;
        let root = s.k.active_table;
        lemma_map_run(
            s,
            none,
            root,
            user_va as int,
            paddr as int,
            mmu::MMU_USER_DEV,
            pages,
        );
        dispatch::lemma_map_run_frame(
            s,
            root,
            user_va as int,
            paddr as int,
            mmu::MMU_USER_DEV,
            pages,
        );
        let t = s.map_run(root, user_va as int, paddr as int, mmu::MMU_USER_DEV, pages).0;
        let u = s.sys_map_mmio(paddr, size, user_va).0;
        if u.k.task != s.k.task {
            lemma_objects(t, u, none);
        } else if u != s && s.sys_map_mmio(paddr, size, user_va).1 is Ok {
            lemma_objects(t, u, none);
        }
        if let Some(i) = s.k.task.mmio_at(user_va, pages as u64, 0) {
            let v = s.with_task(s.k.task.without_mmio(i));
            lemma_objects(s, v, none);
            lemma_unmap_run(v, none, root, user_va as int, pages);
            let w = v.unmap_run(root, user_va as int, pages).0;
            lemma_ops(w, w.op(HwOp::FlushTlb), none);
        }
    }
}

/// Where no memory changed hands, nothing is mixed up.
pub(crate) proof fn lemma_still_isolated(s: MachineView, t: MachineView, spare: Seq<FreeRange>)
    requires
        sound(s, spare),
        still(s, t),
    ensures
        sound(t, spare),
{
    assert forall|h: Holder| #[trigger] object_pages(t.k, h) == object_pages(s.k, h) by {
        match h {
            Holder::Stack(i) | Holder::Message(i) => {
                if 0 <= i < 16 {
                    assert(same_memory(s.k.threads.slots@[i], t.k.threads.slots@[i]));
                }
            },
            _ => {},
        }
    }
    lemma_objects(s, t, spare);
}

/// A call that gives up hands its pages back.
proof fn lemma_fail(s: MachineView, spare: Seq<FreeRange>, runs: Seq<(u64, u64)>, code: u64)
    requires
        sound(s, spare),
        runs.len() == spare.len(),
        forall|i: int|
            0 <= i < runs.len() ==> spare[i] == physical::range_of(#[trigger] runs[i])
                && PhysicalMemory::returnable(runs[i].0, runs[i].1),
    ensures
        s.fail(runs, code).1 is Ok ==> sound(s.fail(runs, code).0, Seq::empty()),
{
    if s.fail(runs, code).1 is Ok {
        lemma_released(s, spare, runs);
    }
}

/// A new thread gets the pages that were taken for it.
proof fn lemma_thread_placed(
    s: MachineView,
    n: MachineView,
    slot: int,
    new: Thread,
    spare: Seq<FreeRange>,
    places: Seq<Holder>,
)
    requires
        sound(s, spare),
        0 <= slot < 16,
        n.k.mem == s.k.mem,
        n.k.frames == s.k.frames,
        n.k.task == s.k.task,
        n.tables == s.tables,
        n.k.threads.slots == s.k.threads.slots.upd(slot, new),
        spare.len() == 1 && places == seq![Holder::Message(slot)] && new.stack_pages == 0
            || spare.len() == 2 && places == seq![Holder::Stack(slot), Holder::Message(slot)]
            && spare[0] == run(new.stack_pa, new.stack_pages),
        spare.last() == run(new.ipc_pa, 1),
    ensures
        sound(n, Seq::empty()),
{
    assert forall|h: Holder|
        (#[trigger] object_pages(n.k, h)).pages != 0 && !places.contains(h) implies object_pages(
        n.k,
        h,
    ) == object_pages(s.k, h) by {
        assert(places.last() == Holder::Message(slot));
        assert(places.contains(places.last()));
        if spare.len() == 2 {
            assert(places[0] == Holder::Stack(slot));
            assert(places.contains(places[0]));
        }
    }
    lemma_settled(s, n, spare, places);
}

#[verifier::spinoff_prover]
proof fn lemma_thread_create(
    s: MachineView,
    cx: Entry,
    entry: u64,
    arg: u64,
    cpu: u64,
    urgency: u64,
    mcp: u64,
)
    requires
        sound(s, Seq::empty()),
        s.thread_create(cx, entry, arg, cpu, urgency, mcp).1 is Ok,
    ensures
        sound(s.thread_create(cx, entry, arg, cpu, urgency, mcp).0, Seq::empty()),
{
    let none: Seq<FreeRange> = Seq::empty();
    if s.k.threads.initialized && s.thread_request_ok(cpu, urgency, mcp) && s.user_executable(
        s.k.active_table,
        entry as int,
    ) {
        if let Some(slot) = s.k.threads.free_slot(1) {
            crate::laws::scheduling::lemma_free_slot(s.k.threads, 1);
            lemma_pages_alloc(s, none, 64);
            let (mem, stack) = s.k.mem.pages_alloc(64);
            let t = s.with_mem(mem);
            if let Some(stack_pa) = stack {
                let one = seq![run(stack_pa, 64)];
                assert(none.push(run(stack_pa, 64)) =~= one);
                lemma_pages_alloc(t, one, 1);
                let (mem2, page) = t.k.mem.page_alloc();
                let u = t.with_mem(mem2);
                match page {
                    None => {
                        let runs = seq![(stack_pa, 64u64)];
                        assert(runs[0] == (stack_pa, 64u64));
                        lemma_fail(u, one, runs, abi::SYS_ERR_NO_MEMORY);
                    },
                    Some(ipc_pa) => {
                        let two = seq![run(stack_pa, 64), run(ipc_pa, 1)];
                        assert(one.push(run(ipc_pa, 1)) =~= two);
                        let v = u.op(HwOp::Zero { pa: stack_pa, bytes: 0x4_0000 }).op(
                            HwOp::Zero { pa: ipc_pa, bytes: 4096 },
                        );
                        lemma_ops(u, v, two);
                        lemma_thread_create_mapped(
                            v,
                            cx,
                            slot,
                            stack_pa,
                            ipc_pa,
                            entry,
                            arg,
                            cpu,
                            urgency,
                            mcp,
                        );
                    },
                }
            }
        }
    }
}

#[verifier::spinoff_prover]
proof fn lemma_thread_create_mapped(
    s: MachineView,
    cx: Entry,
    slot: int,
    stack_pa: u64,
    ipc_pa: u64,
    entry: u64,
    arg: u64,
    cpu: u64,
    urgency: u64,
    mcp: u64,
)
    requires
        sound(s, seq![run(stack_pa, 64), run(ipc_pa, 1)]),
        0 <= slot < 16,
        PhysicalMemory::returnable(stack_pa, 64),
        PhysicalMemory::returnable(ipc_pa, 1),
        s.thread_create_mapped(
            cx,
            slot,
            stack_pa,
            ipc_pa,
            entry,
            arg,
            cpu,
            urgency,
            mcp,
        ).1 is Ok,
    ensures
        sound(
            s.thread_create_mapped(
                cx,
                slot,
                stack_pa,
                ipc_pa,
                entry,
                arg,
                cpu,
                urgency,
                mcp,
            ).0,
            Seq::empty(),
        ),
{
    let none: Seq<FreeRange> = Seq::empty();
    let spare = seq![run(stack_pa, 64), run(ipc_pa, 1)];
    let made = s.thread_create_mapped(
        cx,
        slot,
        stack_pa,
        ipc_pa,
        entry,
        arg,
        cpu,
        urgency,
        mcp,
    ).0;
    let root = s.k.active_table;
    let stack_va = thread::stack_base_of(slot);
    let ipc_va = thread::ipc_va_of(slot);
    let pages = seq![(stack_pa, 64u64), (ipc_pa, 1u64)];
    assert forall|i: int| 0 <= i < pages.len() implies spare[i] == physical::range_of(
        #[trigger] pages[i],
    ) && PhysicalMemory::returnable(pages[i].0, pages[i].1) by {}
    lemma_map_checked(s, spare, root, stack_va, stack_pa as int, mmu::MMU_USER_RW, 64);
    let (t, no_stack) = s.map_checked(root, stack_va, stack_pa as int, mmu::MMU_USER_RW, 64);
    if no_stack is Some {
        lemma_fail(t, spare, pages, abi::SYS_ERR_CONFLICT);
    } else {
        lemma_map_checked(t, spare, root, ipc_va, ipc_pa as int, mmu::MMU_USER_RW, 1);
        let (u, no_ipc) = t.map_checked(root, ipc_va, ipc_pa as int, mmu::MMU_USER_RW, 1);
        lemma_unmap_run(u, spare, root, stack_va, 64);
        let v = u.unmap_run(root, stack_va, 64).0;
        if no_ipc is Some {
            let w = v.op(HwOp::FlushTlb);
            lemma_ops(v, w, spare);
            lemma_fail(w, spare, pages, abi::SYS_ERR_CONFLICT);
        } else {
            let handle = u.k.spaces.handle_on(cx.cpu);
            let found = u.k.spaces.find(handle);
            if found is Err || u.k.spaces.spaces@[found->Ok_0].active_thread_count == u16::MAX {
                lemma_unmap_run(v, spare, root, ipc_va, 1);
                let w = v.unmap_run(root, ipc_va, 1).0.op(HwOp::FlushTlb);
                lemma_ops(v.unmap_run(root, ipc_va, 1).0, w, spare);
                lemma_fail(w, spare, pages, abi::SYS_ERR_BUSY);
            } else {
                let space = found->Ok_0;
                let generation = u.k.threads.slots@[slot].generation;
                let zero = TrapFrame::zeroed();
                let name = crate::handle::handle_of(slot, generation) as u64;
                let new = Thread {
                    generation,
                    owner: u.k.task.owner(),
                    creator_owner: u.k.task.owner(),
                    vspace_handle: handle,
                    vspace_root: root,
                    state: thread::ThreadState::Ready,
                    context: TrapFrame {
                        x: zero.x.upd(0, arg).upd(1, name).upd(2, ipc_va as u64),
                        sp_el0: (stack_va + 0x4_0000) as u64,
                        elr_el1: entry,
                        ..zero
                    },
                    stack_pa,
                    stack_pages: 64,
                    stack_va: stack_va as u64,
                    ipc_pa,
                    ipc_va: ipc_va as u64,
                    affinity_cpu: cpu as u8,
                    base_priority: urgency as u8,
                    effective_priority: urgency as u8,
                    max_control_priority: mcp as u8,
                    running_cpu: thread::NONE,
                    ready_sequence: 0,
                    runtime_ticks: 0,
                };
                let x = u.with_spaces(u.k.spaces.thread_added(space)).with_threads(
                    u.k.threads.with(slot, new),
                );
                lemma_thread_placed(
                    u,
                    x,
                    slot,
                    new,
                    spare,
                    seq![Holder::Stack(slot), Holder::Message(slot)],
                );
                lemma_ready(x, cx, slot);
                assert(made == x.thread_ready(cx, slot));
                lemma_still_isolated(x, made, none);
            }
        }
    }
}

#[verifier::spinoff_prover]
proof fn lemma_thread_create_in(
    s: MachineView,
    target: u64,
    config_va: u64,
    config: abi::ThreadCreateConfig,
)
    requires
        sound(s, Seq::empty()),
        s.thread_create_in(target, config_va, config).1 is Ok,
    ensures
        sound(s.thread_create_in(target, config_va, config).0, Seq::empty()),
{
    let none: Seq<FreeRange> = Seq::empty();
    let made = s.thread_create_in(target, config_va, config).0;
    lemma_pages_alloc(s, none, 1);
    let (mem, page) = s.k.mem.page_alloc();
    match (s.k.spaces.find_for(s.k.task.owner(), target), s.k.threads.free_slot(1), page) {
        (Ok(space), Some(slot), Some(ipc_pa)) => {
            crate::laws::scheduling::lemma_free_slot(s.k.threads, 1);
            let spare = seq![run(ipc_pa, 1)];
            assert(none.push(run(ipc_pa, 1)) =~= spare);
            let t = s.with_mem(mem).op(HwOp::Zero { pa: ipc_pa, bytes: 4096 });
            lemma_ops(s.with_mem(mem), t, spare);
            let root = t.k.spaces.spaces@[space].root_pa;
            let ipc_va = thread::ipc_va_of(slot);
            let pages = seq![(ipc_pa, 1u64)];
            assert(pages[0] == (ipc_pa, 1u64));
            lemma_map_checked(t, spare, root, ipc_va, ipc_pa as int, mmu::MMU_USER_RW, 1);
            let (u, no_ipc) = t.map_checked(root, ipc_va, ipc_pa as int, mmu::MMU_USER_RW, 1);
            lemma_fail(u, spare, pages, abi::SYS_ERR_CONFLICT);
            lemma_unmap_run(u, spare, root, ipc_va, 1);
            let v = u.unmap_run(root, ipc_va, 1).0.op(HwOp::FlushTlb);
            lemma_ops(u.unmap_run(root, ipc_va, 1).0, v, spare);
            lemma_fail(v, spare, pages, abi::SYS_ERR_BUSY);
            let last = t.thread_create_in_mapped(slot, space, target, ipc_pa, config).0;
            if no_ipc is None && u.k.spaces.spaces@[space].active_thread_count != u16::MAX {
                lemma_thread_placed(
                    u,
                    last,
                    slot,
                    last.k.threads.slots@[slot],
                    spare,
                    seq![Holder::Message(slot)],
                );
            }
        },
        _ => {},
    }
}

/// The pages of a thread: its stack and its message buffer.
spec fn thread_runs(thread: Thread, with_stack: bool) -> Seq<(u64, u64)> {
    seq![
        (
            thread.stack_pa,
            if with_stack {
                thread.stack_pages
            } else {
                0
            },
        ),
        (
            thread.ipc_pa,
            if thread.ipc_pa != 0 {
                1
            } else {
                0
            },
        ),
    ]
}

/// A thread goes, and its message buffer and perhaps its stack come back.
proof fn lemma_thread_gone(
    s: MachineView,
    n: MachineView,
    slot: int,
    with_stack: bool,
)
    requires
        sound(s, Seq::empty()),
        0 <= slot < 16,
        ({
            let thread = s.k.threads.slots@[slot];
            let runs = thread_runs(thread, with_stack);
            &&& PhysicalMemory::returnable(thread.stack_pa, thread.stack_pages)
            &&& thread.ipc_pa != 0 ==> PhysicalMemory::returnable(thread.ipc_pa, 1)
            &&& !s.k.mem.freed_runs(runs, 2).1
            &&& n.k.mem == s.k.mem.freed_runs(runs, 2).0
        }),
        n.k.frames == s.k.frames,
        n.k.task == s.k.task,
        shaped(n.tables),
        forall|h: Holder| #[trigger] table_pages(n.tables, h) == table_pages(s.tables, h),
        forall|i: int|
            0 <= i < 16 && i != slot ==> (#[trigger] n.k.threads.slots@[i])
                == s.k.threads.slots@[i],
        n.k.threads.slots@[slot].stack_pages == 0,
        n.k.threads.slots@[slot].ipc_pa == 0,
    ensures
        sound(n, Seq::empty()),
{
    let thread = s.k.threads.slots@[slot];
    let none: Seq<FreeRange> = Seq::empty();
    // A stack that does not come back is forgotten first.
    let mine = if with_stack {
        thread
    } else {
        Thread { stack_pages: 0, ..thread }
    };
    let t = s.with_threads(
        ThreadTable { slots: s.k.threads.slots.upd(slot, mine), ..s.k.threads },
    );
    assert forall|h: Holder|
        (#[trigger] object_pages(t.k, h)).pages != 0 implies object_pages(t.k, h) == object_pages(
        s.k,
        h,
    ) by {}
    lemma_objects(s, t, none);
    let all = thread_runs(thread, with_stack);
    let places = seq![Holder::Stack(slot), Holder::Message(slot)];
    assert(places[0] == Holder::Stack(slot) && places[1] == Holder::Message(slot));
    assert forall|h: Holder|
        (#[trigger] object_pages(n.k, h)).pages != 0 implies object_pages(n.k, h) == object_pages(
        t.k,
        h,
    ) && !places.contains(h) by {
        match h {
            Holder::Stack(i) | Holder::Message(i) => {
                if 0 <= i < 16 && i != slot {
                    assert(n.k.threads.slots@[i] == s.k.threads.slots@[i]);
                }
            },
            _ => {},
        }
    }
    lemma_given_back(t, n, places, all);
}

/// Unmapping a thread's runs and handing them back, as one step.
proof fn lemma_drops(s: MachineView, root: u64, thread: Thread, with_stack: bool)
    requires
        sound(s, Seq::empty()),
    ensures
        ({
            let runs = thread_runs(thread, with_stack);
            let (t, lost) = s.drop_pages(root, thread.stack_va as int, runs[0].0, runs[0].1);
            let (u, lost2) = t.drop_ipc(root, thread);
            lost is None && lost2 is None ==> {
                &&& !s.k.mem.freed_runs(runs, 2).1
                &&& u.k == (Kernel { mem: s.k.mem.freed_runs(runs, 2).0, ..s.k })
                &&& shaped(u.tables)
                &&& forall|h: Holder| #[trigger] table_pages(u.tables, h) == table_pages(
                    s.tables,
                    h,
                )
            }
        }),
{
    reveal(PhysicalMemory::freed);
    reveal(sound);
    let runs = thread_runs(thread, with_stack);
    let (t, lost) = s.drop_pages(root, thread.stack_va as int, runs[0].0, runs[0].1);
    lemma_unmap_tables(s, root, thread.stack_va as int, runs[0].1 as int);
    lemma_unmap_tables(t, root, thread.ipc_va as int, runs[1].1 as int);
    reveal_with_fuel(PhysicalMemory::freed_runs, 3);
    let first = seq![runs[0]];
    let second = seq![runs[1]];
    assert(first[0] == runs[0] && second[0] == runs[1]);
    let (u, lost2) = t.drop_ipc(root, thread);
    if lost is None && lost2 is None {
        assert(t.k.mem == s.k.mem.freed_runs(runs, 1).0);
        assert forall|h: Holder| #[trigger] table_pages(u.tables, h) == table_pages(
            s.tables,
            h,
        ) by {
            assert(table_pages(t.tables, h) == table_pages(s.tables, h));
        }
    }
}

/// When a thread is destroyed its message buffer comes back. No page gets a second use.
#[verifier::spinoff_prover]
proof fn lemma_destroy_keeps_isolation(s: MachineView, handle: u64)
    requires
        s.wf(),
        sound(s, Seq::empty()),
        s.thread_destroy(handle).1 is Ok,
    ensures
        sound(s.thread_destroy(handle).0, Seq::empty()),
{
    if let Ok(slot) = s.k.threads.resolve_control(s.k.task.owner(), handle) {
        let thread = s.k.threads.slots@[slot];
        assert(0 <= slot < 16 && thread.wf());
        if thread.state != thread::ThreadState::Running && thread.state
            != thread::ThreadState::Blocked {
            let n = s.thread_destroy(handle).0;
            lemma_drops(s, thread.vspace_root, thread, false);
            let t = s.drop_pages(
                thread.vspace_root,
                thread.stack_va as int,
                thread.stack_pa,
                0,
            ).0.drop_ipc(thread.vspace_root, thread).0;
            assert(n.k.mem == t.k.mem && n.tables == t.tables);
            lemma_thread_gone(s, n, slot, false);
        }
    }
}

/// The state in which a thread that ended is gone, before the next one is chosen.
spec fn thread_emptied(s: MachineView, thread: Thread, slot: int) -> MachineView {
    let t = s.drop_pages(
        thread.vspace_root,
        thread.stack_va as int,
        thread.stack_pa,
        thread.stack_pages,
    ).0.drop_ipc(thread.vspace_root, thread).0;
    let u = t.with_spaces(t.k.spaces.thread_removed(thread.vspace_handle)).op(HwOp::FlushTlb);
    u.with_threads(
        u.k.threads.with(
            slot,
            Thread {
                base_priority: thread.base_priority,
                effective_priority: thread.effective_priority,
                ready_sequence: thread.ready_sequence,
                runtime_ticks: thread.runtime_ticks,
                ..Thread::empty(
                    crate::handle::generation_after(thread.generation),
                    thread::ThreadState::Exited,
                )
            },
        ),
    )
}

/// When the running thread ends its stack and its message buffer come back. No page gets a
/// second use.
#[verifier::spinoff_prover]
proof fn lemma_exit_keeps_isolation(
    s: MachineView,
    cx: Entry,
    frame: TrapFrame,
)
    requires
        s.wf(),
        s.k.threads.runs(cx.cpu as int),
        sound(s, Seq::empty()),
        s.thread_exit(cx, frame).1 is Ok,
    ensures
        sound(s.thread_exit(cx, frame).0, Seq::empty()),
{
    let none: Seq<FreeRange> = Seq::empty();
    let slot = s.k.threads.current@[cx.cpu as int] as int;
    let saved = s.save_current(cx.cpu as int, frame);
    assert(still(s, saved));
    lemma_cancel(saved, cx, slot);
    let t = saved.cancel_thread(cx, slot);
    lemma_still(s, saved, t);
    lemma_still_isolated(s, t, none);
    let thread = t.k.threads.slots@[slot];
    assert(s.k.threads.slots@[slot].wf());
    assert(same_memory(s.k.threads.slots@[slot], thread));
    lemma_drops(t, thread.vspace_root, thread, true);
    let w = thread_emptied(t, thread, slot);
    assert(w.k.mem == t.k.mem.freed_runs(thread_runs(thread, true), 2).0);
    lemma_thread_gone(t, w, slot, true);
    lemma_after_block(w, cx);
    lemma_still_isolated(w, w.schedule_after_block(cx).0, none);
}

proof fn lemma_cleanup_slot(s: MachineView, root: u64, slot: int)
    requires
        sound(s, Seq::empty()),
        0 <= slot < 16,
        s.k.threads.slots@[slot].wf(),
        s.cleanup_slot(root, slot).1 is None,
    ensures
        ({
            let t = s.cleanup_slot(root, slot).0;
            &&& sound(t, Seq::empty())
            &&& t.k.frames == s.k.frames
            &&& t.k.task == s.k.task
            &&& forall|i: int|
                0 <= i < 16 && i != slot ==> (#[trigger] t.k.threads.slots@[i])
                    == s.k.threads.slots@[i]
        }),
{
    let thread = s.k.threads.slots@[slot];
    let table = if thread.vspace_root > root {
        thread.vspace_root
    } else {
        root
    };
    if thread.owner != 0 {
        lemma_drops(s, table, thread, true);
        let t = s.drop_pages(
            table,
            thread.stack_va as int,
            thread.stack_pa,
            thread.stack_pages,
        ).0.drop_ipc(table, thread).0;
        let n = s.cleanup_slot(root, slot).0;
        assert(n.k.mem == t.k.mem && n.tables == t.tables);
        lemma_thread_gone(s, n, slot, true);
    }
}

proof fn lemma_cleanup_slots(s: MachineView, root: u64, k: int)
    requires
        sound(s, Seq::empty()),
        s.k.threads.wf(),
        0 <= k <= 16,
        s.cleanup_slots(root, k).1 is None,
    ensures
        ({
            let t = s.cleanup_slots(root, k).0;
            &&& sound(t, Seq::empty())
            &&& t.k.frames == s.k.frames
            &&& t.k.task == s.k.task
            &&& forall|i: int|
                k <= i < 16 ==> (#[trigger] t.k.threads.slots@[i]) == s.k.threads.slots@[i]
        }),
    decreases k,
{
    if k > 0 {
        lemma_cleanup_slots(s, root, k - 1);
        let t = s.cleanup_slots(root, k - 1).0;
        assert(t.k.threads.slots@[k - 1] == s.k.threads.slots@[k - 1]);
        assert(s.k.threads.slots@[k - 1].wf());
        lemma_cleanup_slot(t, root, k - 1);
        let u = s.cleanup_slots(root, k).0;
        assert forall|i: int| k <= i < 16 implies (#[trigger] u.k.threads.slots@[i])
            == s.k.threads.slots@[i] by {
            assert(t.k.threads.slots@[i] == s.k.threads.slots@[i]);
        }
    }
}

proof fn lemma_undo(s: MachineView, owner: u32, taken: Seq<vspace::MappingEntry>, k: int)
    requires
        sound(s, Seq::empty()),
        0 <= k <= taken.len(),
    ensures
        ({
            let t = s.undo_mappings(owner, taken, k);
            &&& sound(t, Seq::empty())
            &&& t.k.task == s.k.task
            &&& same_frames(s.k.frames, t.k.frames)
        }),
    decreases k,
{
    if k > 0 {
        lemma_undo(s, owner, taken, k - 1);
        let t = s.undo_mappings(owner, taken, k - 1);
        let entry = taken[k - 1];
        lemma_unmap_run(
            t,
            Seq::empty(),
            entry.target_root,
            entry.va as int,
            entry.pages as int,
        );
        let u = t.unmap_run(entry.target_root, entry.va as int, entry.pages as int).0;
        let v = s.undo_mappings(owner, taken, k);
        lemma_counts(u, v, Seq::empty());
        assert forall|i: int| 0 <= i < 64 implies (#[trigger] v.k.frames@[i]) == (FrameEntry {
            mapping_count: v.k.frames@[i].mapping_count,
            ..s.k.frames@[i]
        }) by {
            assert(t.k.frames@[i] == (FrameEntry {
                mapping_count: t.k.frames@[i].mapping_count,
                ..s.k.frames@[i]
            }));
        }
    }
}

proof fn lemma_unmap_runs(s: MachineView, root: u64, runs: Seq<(u64, u64)>, k: int)
    requires
        sound(s, Seq::empty()),
    ensures
        sound(s.unmap_runs(root, runs, k), Seq::empty()),
        s.unmap_runs(root, runs, k).k == s.k,
    decreases k,
{
    if k > 0 {
        lemma_unmap_runs(s, root, runs, k - 1);
        lemma_unmap_run(
            s.unmap_runs(root, runs, k - 1),
            Seq::empty(),
            root,
            runs[k - 1].0 as int,
            runs[k - 1].1 as int,
        );
    }
}

/// The slots of the frames of `owner` among the first `k`, in the order of `runs_of`.
spec fn slots_of(frames: [FrameEntry; 64], owner: u32, k: int) -> Seq<Holder>
    decreases k,
{
    if k <= 0 {
        Seq::empty()
    } else if frames@[k - 1].owner == owner {
        slots_of(frames, owner, k - 1).push(Holder::Frame(k - 1))
    } else {
        slots_of(frames, owner, k - 1)
    }
}

proof fn lemma_slots_of(k: Kernel, owner: u32, n: int)
    requires
        0 <= n <= 64,
        owner != 0,
        frame::frames_ok(k.frames),
    ensures
        ({
            let slots = slots_of(k.frames, owner, n);
            let runs = frame::runs_of(k.frames, owner, n);
            &&& slots.len() == runs.len()
            &&& forall|i: int|
                0 <= i < slots.len() ==> (#[trigger] slots[i]) is Frame && 0 <= slots[i]->Frame_0
                    < n && k.frames@[slots[i]->Frame_0].owner == owner && object_pages(k, slots[i])
                    == physical::range_of(runs[i]) && PhysicalMemory::returnable(
                    runs[i].0,
                    runs[i].1,
                )
            &&& forall|i: int, j: int|
                0 <= i < j < slots.len() ==> #[trigger] slots[i] != #[trigger] slots[j]
        }),
    decreases n,
{
    if n > 0 {
        lemma_slots_of(k, owner, n - 1);
        assert(k.frames@[n - 1].wf());
    }
}

proof fn lemma_frame_cleanup(s: MachineView, owner: u32)
    requires
        sound(s, Seq::empty()),
        frame::frames_ok(s.k.frames),
        s.frame_cleanup(owner).1 is Ok,
    ensures
        sound(s.frame_cleanup(owner).0, Seq::empty()),
{
    if owner != 0 {
        let n = s.frame_cleanup(owner).0;
        let slots = slots_of(s.k.frames, owner, 64);
        let runs = frame::runs_of(s.k.frames, owner, 64);
        lemma_slots_of(s.k, owner, 64);
        crate::util::lemma_mapped(s.k.frames, frame::drop_frame(owner), 64);
        assert forall|h: Holder|
            (#[trigger] object_pages(n.k, h)).pages != 0 implies object_pages(n.k, h)
            == object_pages(s.k, h) && !slots.contains(h) by {
            if let Holder::Frame(i) = h {
                assert(n.k.frames@[i] == frame::drop_frame(owner)(s.k.frames@[i]));
                if slots.contains(h) {
                    let j = slots.index_of(h);
                    assert(slots[j] is Frame);
                }
            } else if slots.contains(h) {
                let j = slots.index_of(h);
                assert(slots[j] is Frame);
            }
        }
        assert(shaped(n.tables)) by {
            reveal(sound);
        }
        lemma_given_back(s, n, slots, runs);
    }
}

/// What holds the pages of `memory_runs`, in that order.
spec fn task_holders(task: TaskResources) -> Seq<Holder> {
    Seq::new(task.owned_count as nat, |i: int| Holder::Image(i)) + seq![
        Holder::TaskStack,
        Holder::BootInfo,
        Holder::Heap,
    ] + Seq::new(task.dma_count as nat, |i: int| Holder::Dma(i))
}

/// The task is over, and its memory comes back.
proof fn lemma_task_gone(s: MachineView, n: MachineView)
    requires
        sound(s, Seq::empty()),
        s.k.task.wf(),
        s.k.task.active,
        ({
            let runs = s.k.task.memory_runs();
            let (mem, full) = s.k.mem.freed_runs(runs, runs.len() as int);
            !full && n.k.mem == mem
        }),
        n.tables == s.tables,
        n.k.frames == s.k.frames,
        n.k.threads == s.k.threads,
        !n.k.task.active,
    ensures
        sound(n, Seq::empty()),
{
    let task = s.k.task;
    let runs = task.memory_runs();
    let places = task_holders(task);
    let count = task.owned_count as int;
    assert forall|k: int| 0 <= k < places.len() implies is_object(#[trigger] places[k])
        && object_pages(s.k, places[k]) == physical::range_of(runs[k])
        && PhysicalMemory::returnable(runs[k].0, runs[k].1) by {
        if k < count {
            assert(task.owned@[k].wf());
        } else if k >= count + 3 {
            assert(task.dma@[k - count - 3].wf());
        }
    }
    assert forall|h: Holder|
        (#[trigger] object_pages(n.k, h)).pages != 0 implies object_pages(n.k, h) == object_pages(
        s.k,
        h,
    ) && !places.contains(h) by {
        if places.contains(h) {
            let k = places.index_of(h);
            assert(places[k] == h);
        }
    }
    assert(shaped(n.tables)) by {
        reveal(sound);
    }
    lemma_given_back(s, n, places, runs);
}

/// When the task ends without a fault, every page still has at most one use: all its memory is
/// free, and nothing else is.
#[verifier::spinoff_prover]
pub proof fn law_task_exit_keeps_isolation(s: MachineView)
    requires
        s.wf(),
        memory_isolated(s),
        s.task_exit().1 is Ok,
    ensures
        memory_isolated(s.task_exit().0),
{
    if s.k.task.active {
        lemma_sound(s);
        let none: Seq<FreeRange> = Seq::empty();
        let owner = s.k.task.owner();
        let root = s.k.active_table;
        let quiet = s.with_task(TaskResources { irq_binding_count: 0, ..s.k.task }).with_ops(
            s.k.task.disable_bound(s.k.gic, s.k.task.irq_binding_count as int),
        ).sched_cleanup();
        let silent = quiet.with_ipc(quiet.k.ipc.without_owner(owner));
        lemma_objects(s, silent, none);
        let stopped = s.task_stopped().0;
        if silent.k.threads.initialized {
            lemma_cleanup_slots(silent, root, 16);
            lemma_objects(silent.cleanup_slots(root, 16).0, stopped, none);
        }
        assert(sound(stopped, none));
        assert(stopped.k.frames == s.k.frames);
        assert(stopped.k.task == TaskResources { irq_binding_count: 0, ..s.k.task });
        let taken = vspace::mappings_of(stopped.k.spaces.mappings, owner, 128);
        let dropped = stopped.with_spaces(
            vspace::VSpaces {
                mappings: crate::util::mapped(
                    stopped.k.spaces.mappings,
                    vspace::drop_mapping(owner),
                    128,
                ),
                ..stopped.k.spaces
            },
        );
        lemma_objects(stopped, dropped, none);
        lemma_undo(dropped, owner, taken, taken.len() as int);
        let unmapped = stopped.vspace_cleanup(owner);
        let task = unmapped.k.task;
        let runs = task.user_runs();
        lemma_unmap_runs(unmapped, root, runs, runs.len() as int);
        let t = unmapped.unmap_runs(root, runs, runs.len() as int).op(HwOp::FlushTlb);
        lemma_ops(unmapped.unmap_runs(root, runs, runs.len() as int), t, none);
        assert forall|i: int| 0 <= i < 64 implies (#[trigger] t.k.frames@[i]).wf() by {
            assert(s.k.frames@[i].wf());
            assert(t.k.frames@[i] == (FrameEntry {
                mapping_count: t.k.frames@[i].mapping_count,
                ..s.k.frames@[i]
            }));
        }
        lemma_frame_cleanup(t, owner);
        let u = t.frame_cleanup(owner).0;
        lemma_task_gone(u, s.task_exit().0);
        lemma_isolated(s.task_exit().0);
    }
}

/// Whatever system call a thread of the task makes, and whether it succeeds or is refused, every
/// page of memory has at most one use afterwards, unless the kernel cannot go on.
#[verifier::spinoff_prover]
pub proof fn law_calls_keep_isolation(
    s: MachineView,
    cx: Entry,
    frame: TrapFrame,
)
    requires
        s.wf(),
        s.k.task.active,
        s.k.threads.runs(cx.cpu as int),
        memory_isolated(s),
    ensures
        s.svc_frame(cx, frame).2 != Dispatch::Halt ==> memory_isolated(s.svc_frame(cx, frame).0),
{
    lemma_sound(s);
    let none: Seq<FreeRange> = Seq::empty();
    let sysno = frame.x@[8];
    let n = s.svc_frame(cx, frame).0;
    if s.svc_frame(cx, frame).2 != Dispatch::Halt {
        if dispatch::is_endpoint_call(sysno) {
            stillness::lemma_endpoint_calls(s, cx, frame);
            lemma_still_isolated(s, n, none);
        } else if dispatch::is_notification_call(sysno) {
            stillness::lemma_notification_calls(s, cx, frame);
            lemma_still_isolated(s, n, none);
        } else if dispatch::is_thread_call(sysno) {
            lemma_thread_calls(s, cx, frame);
        } else if dispatch::is_builder_call(sysno) {
            lemma_builder_calls(s, cx, frame);
        } else {
            lemma_plain_calls(s, cx, frame);
        }
        lemma_isolated(n);
    }
}

#[verifier::spinoff_prover]
proof fn lemma_thread_calls(
    s: MachineView,
    cx: Entry,
    frame: TrapFrame,
)
    requires
        s.wf(),
        s.k.threads.runs(cx.cpu as int),
        sound(s, Seq::empty()),
        s.thread_svc(cx, frame).2 != Dispatch::Halt,
    ensures
        sound(s.thread_svc(cx, frame).0, Seq::empty()),
{
    let none: Seq<FreeRange> = Seq::empty();
    let sysno = frame.x@[8];
    let a = frame.x@[0];
    let b = frame.x@[1];
    let n = s.thread_svc(cx, frame).0;
    if sysno == abi::SYS_THREAD_CREATE {
        lemma_thread_create(s, cx, a, b, frame.x@[2], frame.x@[3], frame.x@[4]);
    } else if sysno == abi::SYS_THREAD_EXIT {
        lemma_exit_keeps_isolation(s, cx, frame);
    } else if sysno == abi::SYS_THREAD_YIELD {
        stillness::lemma_yield(s, cx, frame.with_result(0));
        lemma_still_isolated(s, n, none);
    } else if sysno == abi::SYS_THREAD_SET_PRIORITY {
        stillness::lemma_set_priority(s, cx, a, b);
        lemma_still_isolated(s, n, none);
    }
}

#[verifier::spinoff_prover]
proof fn lemma_builder_calls(
    s: MachineView,
    cx: Entry,
    frame: TrapFrame,
)
    requires
        s.wf(),
        sound(s, Seq::empty()),
        s.builder_svc(cx, frame).2 != Dispatch::Halt,
    ensures
        sound(s.builder_svc(cx, frame).0, Seq::empty()),
{
    let none: Seq<FreeRange> = Seq::empty();
    let sysno = frame.x@[8];
    let a = frame.x@[0];
    let b = frame.x@[1];
    let owner = s.k.task.owner();
    let n = s.builder_svc(cx, frame).0;
    if sysno == abi::SYS_VSPACE_CREATE || sysno == abi::SYS_VSPACE_DESTROY {
        lemma_spaces_keep_isolation(s, owner, a);
    } else if sysno == abi::SYS_FRAME_MAP_TO {
        lemma_map_frame_takes_free_pages(
            s,
            owner,
            a,
            b,
            frame.x@[2],
            frame.x@[3],
            frame.x@[4],
            frame.x@[5],
            false,
        );
    } else if sysno == abi::SYS_THREAD_CREATE_IN {
        lemma_thread_create_in(s, a, b, cx.config);
    } else if sysno == abi::SYS_THREAD_START || sysno == abi::SYS_THREAD_SUSPEND {
        stillness::lemma_control(s, cx, a);
        lemma_still_isolated(s, n, none);
    } else {
        lemma_destroy_keeps_isolation(s, a);
    }
}

#[verifier::spinoff_prover]
proof fn lemma_plain_calls(
    s: MachineView,
    cx: Entry,
    frame: TrapFrame,
)
    requires
        s.wf(),
        s.k.task.active,
        sound(s, Seq::empty()),
    ensures
        ({
            let (n, outcome) = s.svc(
                cx,
                frame.x@[8],
                frame.x@[0],
                frame.x@[1],
                frame.x@[2],
                frame.x@[3],
                frame.x@[4],
            );
            outcome != dispatch::Svc::Halt ==> sound(n, Seq::empty())
        }),
{
    let none: Seq<FreeRange> = Seq::empty();
    let sysno = frame.x@[8];
    let (a, b, c) = (frame.x@[0], frame.x@[1], frame.x@[2]);
    let owner = s.k.task.owner();
    let n = s.svc(cx, sysno, a, b, c, frame.x@[3], frame.x@[4]).0;
    if sysno == abi::SYS_MAP_MMIO {
        lemma_mmio_keeps_isolation(s, a, b, c);
    } else if sysno == abi::SYS_UNMAP_MMIO {
        lemma_mmio_keeps_isolation(s, 0, b, a);
    } else if sysno == abi::SYS_DMA_ALLOC {
        lemma_dma_takes_free_pages(s, a, b, c);
    } else if sysno == abi::SYS_DMA_FREE {
        lemma_dma_free_ends_one_use(s, a, b);
    } else if sysno == abi::SYS_FRAME_ALLOC {
        lemma_allocate_takes_free_pages(s, owner, a, b);
    } else if sysno == abi::SYS_FRAME_FREE {
        if s.frame_free(owner, a).1 is Ok {
            lemma_free_ends_one_use(s, owner, a);
        }
    } else if sysno == abi::SYS_FRAME_MAP {
        lemma_map_frame_takes_free_pages(
            s,
            owner,
            s.k.spaces.handle_on(cx.cpu),
            a,
            b,
            c,
            frame.x@[3],
            frame.x@[4],
            true,
        );
    } else if sysno == abi::SYS_FRAME_UNMAP {
        lemma_unmap_moves_no_pages(s, owner, a);
    } else {
        lemma_objects(s, n, none);
    }
}

/// No interrupt gives a page a second use.
#[verifier::spinoff_prover]
pub proof fn law_interrupts_keep_isolation(
    s: MachineView,
    cx: Entry,
    raw: u32,
    frame: TrapFrame,
)
    requires
        s.wf(),
        frame.spsr_el1 % 16 == 0 ==> s.k.threads.runs(cx.cpu as int),
        memory_isolated(s),
    ensures
        memory_isolated(s.irq(cx, raw, frame).0),
{
    lemma_sound(s);
    let none: Seq<FreeRange> = Seq::empty();
    let n = s.irq(cx, raw, frame).0;
    let line = raw % 1024;
    let ended = s.with_ops(s.k.gic.eoir_ops(raw));
    if !s.k.gic.is_ready() || line >= 1020 {
    } else if line == gic::SGI_RESCHEDULE {
        lemma_ops(s, ended, none);
        lemma_look_again(ended, cx, frame);
    } else if line == gic::SGI_TLB_SHOOTDOWN {
        lemma_ops(s, n, none);
    } else if line == gic::SGI_TASK_STOP {
        lemma_objects(s, n, none);
    } else if s.k.timer.intid != 0 && s.k.timer.intid == line {
        let halted = s.disarm().with_ops(s.k.gic.eoir_ops(raw));
        lemma_ops(s, halted, none);
        if frame.spsr_el1 % 16 == 0 {
            stillness::lemma_yield(halted, cx, frame);
            lemma_still_isolated(halted, n, none);
        }
    } else if let Some(i) = s.k.task.binding(line, 0) {
        lemma_device_irq(s, cx, raw, i, frame);
    } else {
        lemma_ops(s, ended, none);
    }
    lemma_isolated(n);
}

#[verifier::spinoff_prover]
proof fn lemma_device_irq(s: MachineView, cx: Entry, raw: u32, i: int, frame: TrapFrame)
    requires
        sound(s, Seq::empty()),
        frame.spsr_el1 % 16 == 0 ==> s.k.threads.runs(cx.cpu as int),
    ensures
        sound(s.device_irq(cx, raw, i, frame).0, Seq::empty()),
{
    let none: Seq<FreeRange> = Seq::empty();
    let binding = s.k.task.irq_bindings@[i];
    let quiet = s.with_ops(s.k.gic.disable_ops(raw % 1024)).with_ops(s.k.gic.eoir_ops(raw));
    let t = quiet.with_task(quiet.k.task.with_awaiting(i, true));
    lemma_objects(s, t, none);
    stillness::lemma_signal(t, cx, binding.notification, binding.badge);
    let u = t.signal(cx, binding.notification, binding.badge).0;
    lemma_still_isolated(t, u, none);
    lemma_look_again(u, cx, frame);
}

proof fn lemma_look_again(
    s: MachineView,
    cx: Entry,
    frame: TrapFrame,
)
    requires
        sound(s, Seq::empty()),
        frame.spsr_el1 % 16 == 0 ==> s.k.threads.runs(cx.cpu as int),
    ensures
        sound(s.look_again(cx, frame).0, Seq::empty()),
{
    if frame.spsr_el1 % 16 == 0 {
        stillness::lemma_preempt(s, cx, frame);
    } else {
        stillness::lemma_choice(s, cx);
    }
    lemma_still_isolated(s, s.look_again(cx, frame).0, Seq::empty());
}

} // verus!
