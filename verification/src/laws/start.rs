//! The first state, and what booting makes of it: the invariants that calls keep hold from there.
use crate::abi;
use crate::boot::elf::{self, LoadedElf};
use crate::boot::kmain::{self, TaskMemory};
use crate::boot_info::{BootInfo, BootRange, Framebuffer};
use crate::hw::HwOp;
use crate::laws::memory::{
    is_object, lemma_aligned_alloc, lemma_isolated, lemma_map_block, lemma_map_blocks,
    lemma_map_run, lemma_new_table, lemma_objects, lemma_ops, lemma_pages_alloc, lemma_settled,
    lemma_sound, memory_isolated, object_pages, run, sound, Holder,
};
use crate::laws::isolation::{self, lemma_forgotten};
use crate::laws::scheduling::{self, numbered, orderly};
use crate::laws::{mappings, memory, stillness};
use crate::machine::{unused, Entry, Kernel, MachineView};
use crate::memory::mmu;
use crate::memory::physical::{FreeRange, PhysicalMemory};
use crate::memory::vspace;
use crate::object::task::{IrqGrant, MmioGrant, TaskResources};
use crate::object::thread::ThreadState;
use crate::resource::resources::{self, PlatformResources};
use crate::syscall::dispatch;
use vstd::prelude::*;

verus! {

/// An entry that says nothing, on the first processor.
pub open spec fn nobody() -> Entry {
    Entry {
        cpu: 0,
        now: 0,
        message: abi::IpcMessage {
            label: 0,
            words: crate::util::filled(0),
            reply: abi::ReplyHandle(0),
        },
        config: abi::ThreadCreateConfig {
            entry: 0,
            stack_pointer: 0,
            arg0: 0,
            arg1: 0,
            cpu: 0,
            priority: 0,
            max_control_priority: 0,
            reserved: 0,
        },
    }
}

/// A kernel that has been told nothing keeps every promise: no page has two uses, no frame is
/// writable and executable, every frame counts its mappings, and the scheduler is in order.
pub proof fn law_first_state(s: MachineView)
    requires
        unused(s.k),
        !s.k.task.active,
        s.tables.len() == 0,
    ensures
        memory_isolated(s),
        vspace::write_xor_execute(s.k.spaces),
        vspace::mappings_counted(s.k),
        orderly(s),
        numbered(s),
{
    assert forall|i: int| 0 <= i < 64 implies (#[trigger] s.k.frames@[i]).owner == 0 by {}
    assert forall|j: int| 0 <= j < 128 implies (#[trigger] s.k.spaces.mappings@[j]).owner == 0 by {}
    mappings::law_no_frames_are_counted(s);
    assert forall|i: int|
        0 <= i < 16 implies (#[trigger] s.k.threads.slots@[i]).stack_pages == 0
        && s.k.threads.slots@[i].ipc_pa == 0 by {}
    memory::law_unused_memory_is_isolated(s);
    assert forall|i: int| 0 <= i < 16 implies scheduling::in_range(
        #[trigger] s.k.threads.slots@[i],
    ) by {}
    scheduling::law_first_thread_is_orderly(
        s,
        nobody(),
        0,
        0,
        0,
    );
}

/// The ranges of memory that the boot shim found have no page in common.
pub open spec fn ranges_apart(bi: BootInfo) -> bool {
    forall|i: int, j: int|
        0 <= i < j < bi.range_count ==> range_of(#[trigger] bi.ranges@[i]).apart(
            range_of(#[trigger] bi.ranges@[j]),
        )
}

pub open spec fn range_of(range: BootRange) -> FreeRange {
    FreeRange { base: range.base, pages: range.pages }
}

/// The part of a range that is used lies in the range.
proof fn lemma_usable(a: BootRange, b: BootRange)
    requires
        kmain::sound_range(a),
        kmain::sound_range(b),
        range_of(a).apart(range_of(b)),
    ensures
        range_of(kmain::usable(a)).apart(range_of(kmain::usable(b))),
{
}

/// The allocator that is filled from separate ranges records no page twice.
proof fn lemma_filled(mem: PhysicalMemory, bi: BootInfo, k: int)
    requires
        bi.wf(),
        kmain::sound_memory(bi),
        ranges_apart(bi),
        0 <= k <= bi.range_count,
    ensures
        ({
            let m = kmain::filled_memory(mem, bi, k);
            &&& m.count <= k
            &&& m.wf()
            &&& m.disjoint()
            &&& forall|i: int, j: int|
                0 <= i < m.count && k <= j < bi.range_count ==> (#[trigger] m.ranges@[i]).apart(
                    range_of(kmain::usable(#[trigger] bi.ranges@[j])),
                )
        }),
    decreases k,
{
    if k > 0 {
        lemma_filled(mem, bi, k - 1);
        let before = kmain::filled_memory(mem, bi, k - 1);
        let m = kmain::filled_memory(mem, bi, k);
        let new = kmain::usable(bi.ranges@[k - 1]);
        assert(kmain::sound_range(bi.ranges@[k - 1]));
        let n = before.count as int;
        if new.pages != 0 {
            assert(m.ranges@[n] == range_of(new));
        }
        assert forall|i: int| 0 <= i < m.count implies (#[trigger] m.ranges@[i]).ok() by {
            if i < n {
                assert(m.ranges@[i] == before.ranges@[i]);
            }
        }
        assert forall|i: int, j: int| 0 <= i < j < m.count implies (#[trigger] m.ranges@[i]).apart(
            #[trigger] m.ranges@[j],
        ) by {
            assert(m.ranges@[i] == before.ranges@[i]);
            if j < n {
                assert(m.ranges@[j] == before.ranges@[j]);
            } else {
                assert(before.ranges@[i].apart(range_of(kmain::usable(bi.ranges@[k - 1]))));
            }
        }
        assert forall|i: int, j: int|
            0 <= i < m.count && k <= j < bi.range_count implies (#[trigger] m.ranges@[i]).apart(
            range_of(kmain::usable(#[trigger] bi.ranges@[j])),
        ) by {
            if i < n {
                assert(m.ranges@[i] == before.ranges@[i]);
            } else {
                assert(kmain::sound_range(bi.ranges@[j]));
                assert(range_of(bi.ranges@[k - 1]).apart(range_of(bi.ranges@[j])));
                lemma_usable(bi.ranges@[k - 1], bi.ranges@[j]);
            }
        }
    }
}

/// Threads, ready sets, frames, mappings, task and communication objects are as they were.
pub open spec fn untouched(s: MachineView, n: MachineView) -> bool {
    &&& n.k.threads == s.k.threads
    &&& n.k.sched == s.k.sched
    &&& n.k.frames == s.k.frames
    &&& n.k.spaces.mappings == s.k.spaces.mappings
    &&& n.k.task == s.k.task
    &&& n.k.ipc == s.k.ipc
}

/// Booting has come from `s` to `n`, with `spare` taken for the task.
spec fn underway(s: MachineView, n: MachineView, spare: Seq<FreeRange>) -> bool {
    untouched(s, n) && sound(n, spare)
}

/// Other parts of the kernel may change meanwhile.
proof fn lemma_aside(s: MachineView, t: MachineView, n: MachineView, spare: Seq<FreeRange>)
    requires
        underway(s, t, spare),
        untouched(t, n),
        n.k.mem == t.k.mem,
        n.tables == t.tables,
    ensures
        underway(s, n, spare),
{
    lemma_objects(t, n, spare);
}

proof fn lemma_run_mapped(
    s: MachineView,
    t: MachineView,
    spare: Seq<FreeRange>,
    root: u64,
    va: int,
    pa: int,
    flags: u64,
    n: int,
)
    requires
        underway(s, t, spare),
    ensures
        underway(s, t.map_run(root, va, pa, flags, n).0, spare),
{
    lemma_map_run(t, spare, root, va, pa, flags, n);
    dispatch::lemma_map_run_frame(t, root, va, pa, flags, n);
}

proof fn lemma_device_mapped(
    s: MachineView,
    t: MachineView,
    spare: Seq<FreeRange>,
    root: u64,
    pa: u64,
)
    requires
        underway(s, t, spare),
    ensures
        underway(s, t.map_device(root, pa).0, spare),
{
    let block = pa - pa % 0x20_0000;
    lemma_map_block(t, spare, root, block, block as u64, mmu::MMU_DEV);
    vspace::lemma_map_block_frame(t, root, block, block as u64, mmu::MMU_DEV);
}

proof fn lemma_taken(s: MachineView, t: MachineView, spare: Seq<FreeRange>, n: u64)
    requires
        underway(s, t, spare),
    ensures
        match t.take_pages(n).1 {
            Some(pa) => underway(s, t.take_pages(n).0, spare.push(run(pa, n))),
            None => true,
        },
{
    lemma_pages_alloc(t, spare, n);
}

proof fn lemma_kernel_mapped(s: MachineView)
    requires
        sound(s, Seq::empty()),
    ensures
        underway(s, s.map_kernel().0, Seq::empty()),
{
    reveal(MachineView::new_table);
    let none: Seq<FreeRange> = Seq::empty();
    let (t, table) = s.new_table();
    lemma_new_table(s, none);
    if let Some(root) = table {
        let n = mmu::blocks_in(0, kmain::IDENTITY_END as int);
        lemma_map_blocks(
            t,
            none,
            root,
            0,
            mmu::MMU_KERNEL,
            abi::USER_BASE as int,
            abi::USER_WINDOW_END as int,
            n,
        );
        vspace::lemma_map_blocks_frame(
            t,
            root,
            0,
            mmu::MMU_KERNEL,
            abi::USER_BASE as int,
            abi::USER_WINDOW_END as int,
            n,
        );
        let (u, fault) = t.map_blocks(
            root,
            0,
            mmu::MMU_KERNEL,
            abi::USER_BASE as int,
            abi::USER_WINDOW_END as int,
            n,
        );
        if fault is None {
            lemma_aside(s, u, s.map_kernel().0, none);
        }
    }
}

#[verifier::spinoff_prover]
proof fn lemma_devices_attached(
    s: MachineView,
    t: MachineView,
    root: u64,
    p: PlatformResources,
)
    requires
        underway(s, t, Seq::empty()),
        t.attach_devices(root, p).1 is None,
    ensures
        underway(s, t.attach_devices(root, p).0, Seq::empty()),
{
    let none: Seq<FreeRange> = Seq::empty();
    let counted = MachineView {
        k: Kernel {
            smp: crate::arch::smp::Smp { cpu_count: p.cpus.count, ..t.k.smp },
            ..t.k
        },
        ..t
    };
    lemma_aside(s, t, counted, none);
    lemma_device_mapped(s, counted, none, root, p.uart.base);
    let a = counted.map_device(root, p.uart.base).0;
    let flushed = a.op(HwOp::FlushTlb);
    let b = flushed.with_protect(flushed.k.protect.registered(p.uart.base, p.uart.size));
    lemma_aside(s, a, b, none);
    lemma_device_mapped(s, b, none, root, p.gicd_pa);
    let c = b.map_device(root, p.gicd_pa).0;
    lemma_device_mapped(s, c, none, root, p.gicc_pa);
    let d = c.map_device(root, p.gicc_pa).0;
    lemma_aside(s, d, t.attach_devices(root, p).0, none);
}

/// The pages of the segments that are loaded.
spec fn segment_runs(loaded: LoadedElf) -> Seq<FreeRange> {
    Seq::new(
        loaded.segment_count as nat,
        |i: int| run(loaded.segments@[i].pa, loaded.segments@[i].pages),
    )
}

proof fn lemma_segment_placed(
    s: MachineView,
    t: MachineView,
    root: u64,
    image: Seq<u8>,
    at: int,
    loaded: LoadedElf,
)
    requires
        underway(s, t, segment_runs(loaded)),
        loaded.segment_count < 8,
        t.place_segment(root, image, at, loaded).1 is Ok,
    ensures
        ({
            let (n, r) = t.place_segment(root, image, at, loaded);
            underway(s, n, segment_runs(r->Ok_0)) && r->Ok_0.segment_count <= 8
        }),
{
    let segment = elf::segment_at(image, at);
    let pages = segment.pages() as u64;
    let spare = segment_runs(loaded);
    lemma_pages_alloc(t, spare, pages);
    let (mem, got) = t.k.mem.pages_alloc(pages);
    let pa = got->0;
    let more = spare.push(run(pa, pages));
    let filled = t.with_mem(mem).op(
        HwOp::Zero { pa, bytes: (segment.pages() * 4096) as u64 },
    ).op(
        HwOp::CopyImage {
            pa,
            from: segment.file_offset as u64,
            bytes: segment.file_size as u64,
        },
    );
    lemma_ops(t.with_mem(mem), filled, more);
    lemma_run_mapped(
        s,
        filled,
        more,
        root,
        segment.vaddr,
        pa as int,
        segment.map_flags(),
        segment.pages(),
    );
    let after = t.place_segment(root, image, at, loaded).1->Ok_0;
    assert(segment_runs(after) =~= more);
}

proof fn lemma_headers_loaded(
    s: MachineView,
    t: MachineView,
    root: u64,
    image: Seq<u8>,
    index: int,
    loaded: LoadedElf,
)
    requires
        underway(s, t, segment_runs(loaded)),
        loaded.segment_count <= 8,
        t.load_headers(root, image, index, loaded).1 is Ok,
    ensures
        ({
            let (n, r) = t.load_headers(root, image, index, loaded);
            underway(s, n, segment_runs(r->Ok_0)) && r->Ok_0.segment_count <= 8
        }),
    decreases elf::number(image, 56, 2) - index,
{
    if index < elf::number(image, 56, 2) {
        let (u, r) = t.load_header(root, image, index, loaded);
        let at = elf::header_at(image, index);
        if (u, r) == t.place_segment(root, image, at, loaded) && loaded.segment_count < 8 {
            lemma_segment_placed(s, t, root, image, at, loaded);
        }
        lemma_headers_loaded(s, u, root, image, index + 1, r->Ok_0);
    }
}

/// The runs of the task's memory, in the order in which they are taken.
spec fn task_runs(memory: TaskMemory) -> Seq<FreeRange> {
    segment_runs(memory.loaded).push(run(memory.stack_pa, 16)).push(
        run(memory.heap_pa, 1024),
    ).push(run(memory.boot_info_pa, 1)).push(run(memory.ipc_pa, 1))
}

proof fn lemma_task_loaded(
    s: MachineView,
    t: MachineView,
    root: u64,
    image: Seq<u8>,
    info: abi::UserBootInfo,
)
    requires
        underway(s, t, Seq::empty()),
        t.load_task(root, image, info).1 is Ok,
    ensures
        ({
            let (n, r) = t.load_task(root, image, info);
            underway(s, n, task_runs(r->Ok_0)) && r->Ok_0.loaded.segment_count <= 8
        }),
{
    let start = LoadedElf::nothing(elf::number(image, 24, 8) as u64);
    assert(segment_runs(start) =~= Seq::empty());
    lemma_headers_loaded(s, t, root, image, 0, start);
    let (u, loaded) = t.load_elf(root, image);
    let loaded = loaded->Ok_0;
    let one = segment_runs(loaded);
    lemma_taken(s, u, one, 16);
    let (a, stack) = u.take_pages(16);
    let two = one.push(run(stack->0, 16));
    lemma_taken(s, a, two, 1024);
    let (b, heap) = a.take_pages(1024);
    let three = two.push(run(heap->0, 1024));
    lemma_taken(s, b, three, 1);
    let (c, page) = b.take_pages(1);
    let four = three.push(run(page->0, 1));
    lemma_taken(s, c, four, 1);
    let (d, _) = c.take_pages(1);
    let (n, memory) = t.load_task(root, image, info);
    lemma_aside(s, d, n, task_runs(memory->Ok_0));
}

#[verifier::spinoff_prover]
proof fn lemma_stage_completed(
    s: MachineView,
    t: MachineView,
    spare: Seq<FreeRange>,
    root: u64,
    uart_base: u64,
    fb: Framebuffer,
    memory: TaskMemory,
)
    requires
        underway(s, t, spare),
        t.complete_stage1(root, uart_base, fb, memory).1 is None,
    ensures
        underway(s, t.complete_stage1(root, uart_base, fb, memory).0, spare),
{
    lemma_device_mapped(s, t, spare, root, uart_base);
    let a = if uart_base != 0 {
        t.map_device(root, uart_base).0
    } else {
        t
    };
    let first = fb.base - fb.base % 0x20_0000;
    let count = mmu::blocks_in(fb.base as int, fb.base + fb.size);
    lemma_map_blocks(
        a,
        spare,
        root,
        first,
        mmu::MMU_DEV,
        abi::USER_BASE as int,
        abi::USER_WINDOW_END as int,
        count,
    );
    vspace::lemma_map_blocks_frame(
        a,
        root,
        first,
        mmu::MMU_DEV,
        abi::USER_BASE as int,
        abi::USER_WINDOW_END as int,
        count,
    );
    let b = a.map_display(root, fb).0;
    assert(underway(s, b, spare));
    let va = abi::USER_BOOT_INFO_VA as int;
    lemma_run_mapped(s, b, spare, root, va, memory.boot_info_pa as int, mmu::MMU_USER_RO, 1);
    let c = b.map_run(root, va, memory.boot_info_pa as int, mmu::MMU_USER_RO, 1).0;
    let va = abi::USER_HEAP_BASE as int;
    lemma_run_mapped(s, c, spare, root, va, memory.heap_pa as int, mmu::MMU_USER_RW, 1024);
    let d = c.map_run(root, va, memory.heap_pa as int, mmu::MMU_USER_RW, 1024).0;
    let va = abi::USER_STACK_TOP - 65536;
    lemma_run_mapped(s, d, spare, root, va, memory.stack_pa as int, mmu::MMU_USER_RW, 16);
    let e = d.map_run(root, va, memory.stack_pa as int, mmu::MMU_USER_RW, 16).0;
    let va = abi::THREAD_IPC_BUFFER_BASE as int;
    lemma_run_mapped(s, e, spare, root, va, memory.ipc_pa as int, mmu::MMU_USER_RW, 1);
    let f = e.map_run(root, va, memory.ipc_pa as int, mmu::MMU_USER_RW, 1).0;
    lemma_aside(s, f, t.complete_stage1(root, uart_base, fb, memory).0, spare);
}

/// What holds the memory of a new task, in the order of `task_runs`.
spec fn task_places(count: int) -> Seq<Holder> {
    Seq::new(count as nat, |i: int| Holder::Image(i)) + seq![
        Holder::TaskStack,
        Holder::Heap,
        Holder::BootInfo,
        Holder::Message(0),
    ]
}

#[verifier::spinoff_prover]
proof fn lemma_task_installed(
    s: MachineView,
    t: MachineView,
    cx: Entry,
    memory: TaskMemory,
    mmio: Seq<MmioGrant>,
    irqs: Seq<IrqGrant>,
)
    requires
        unused(s.k),
        underway(s, t, task_runs(memory)),
        memory.loaded.segment_count <= 8,
    ensures
        sound(t.install_task(cx, memory, mmio, irqs), Seq::empty()),
{
    let n = t.install_task(cx, memory, mmio, irqs);
    let count = memory.loaded.segment_count as int;
    let spare = task_runs(memory);
    let places = task_places(count);
    let segments = memory.loaded.segments@.take(count);
    let blank = TaskResources::none().owned;
    crate::util::lemma_with_prefix(blank, segments, count);
    assert forall|i: int| 0 <= i < count implies (#[trigger] n.k.task.owned@[i])
        == memory.loaded.segments@[i] by {}
    assert forall|k: int| 0 <= k < places.len() implies is_object(#[trigger] places[k]) && (
    object_pages(n.k, places[k]).pages != 0 ==> object_pages(n.k, places[k]) == spare[k]) by {
        if k < count {
            assert(n.k.task.owned@[k] == memory.loaded.segments@[k]);
        }
    }
    assert forall|h: Holder|
        (#[trigger] object_pages(n.k, h)).pages != 0 && !places.contains(h) implies object_pages(
        n.k,
        h,
    ) == object_pages(t.k, h) by {
        match h {
            Holder::Image(i) => {
                assert(places[i] == h);
            },
            Holder::TaskStack => {
                assert(places[count] == h);
            },
            Holder::Heap => {
                assert(places[count + 1] == h);
            },
            Holder::BootInfo => {
                assert(places[count + 2] == h);
            },
            Holder::Message(i) => {
                if i == 0 {
                    assert(places[count + 3] == h);
                }
            },
            _ => {},
        }
    }
    lemma_settled(t, n, spare, places);
}

/// After booting from the first state, with memory whose ranges are whole pages and apart, every
/// promise that calls and interrupts keep holds: no page has two uses, no frame is writable and
/// executable, every frame counts its mappings, and the scheduler is in order. A task is active,
/// and its first thread runs on the first processor.
pub proof fn law_boot_starts_sound(
    s: MachineView,
    cx: Entry,
    bi: BootInfo,
    blob: Seq<u8>,
    image: Seq<u8>,
)
    requires
        unused(s.k),
        !s.k.task.active,
        s.tables.len() == 0,
        bi.wf(),
        kmain::sound_memory(bi),
        ranges_apart(bi),
        s.boot(cx, bi, blob, image).1 is Ok,
    ensures
        ({
            let n = s.boot(cx, bi, blob, image).0;
            &&& memory_isolated(n)
            &&& vspace::write_xor_execute(n.k.spaces)
            &&& vspace::mappings_counted(n.k)
            &&& orderly(n)
            &&& numbered(n)
            &&& n.k.task.active
            &&& n.k.sched.ready_sequence == 1
            &&& n.k.threads.initialized
            &&& n.k.threads.runs(0)
        }),
{
    let none: Seq<FreeRange> = Seq::empty();
    let count = bi.range_count as int;
    lemma_filled(s.k.mem, bi, count);
    let filled = s.with_mem(kmain::filled_memory(s.k.mem, bi, count));
    law_first_state(s);
    lemma_filled_sound(filled);
    lemma_kernel_mapped(filled);
    let (a, root) = filled.map_kernel();
    let root = root->Ok_0;
    let p = resources::platform_in(blob)->0;
    lemma_devices_attached(filled, a, root, p);
    let b = a.attach_devices(root, p).0;
    let c = b.with_protect(
        crate::boot::dtb::registered(
            b.k.protect,
            kmain::windows(p),
            kmain::windows(p).len() as int,
        ),
    );
    lemma_aside(filled, b, c, none);
    lemma_task_loaded(filled, c, root, image, kmain::told(p));
    let (d, memory) = c.load_task(root, image, kmain::told(p));
    let memory = memory->Ok_0;
    lemma_stage_completed(filled, d, task_runs(memory), root, p.uart.base, bi.fb, memory);
    let e = d.complete_stage1(root, p.uart.base, bi.fb, memory).0;
    lemma_task_installed(s, e, cx, memory, kmain::mmio_grants(p), kmain::irq_grants(p));
    let n = s.boot(cx, bi, blob, image).0;
    lemma_isolated(n);
    lemma_thread_installed(s, e, cx, memory, kmain::mmio_grants(p), kmain::irq_grants(p));
}

/// Where nothing is in use, any memory without overlaps is sound.
proof fn lemma_filled_sound(s: MachineView)
    requires
        s.k.mem.wf(),
        s.k.mem.disjoint(),
        s.tables.len() == 0,
        !s.k.task.active,
        forall|i: int| 0 <= i < 64 ==> (#[trigger] s.k.frames@[i]).owner == 0,
        forall|i: int|
            0 <= i < 16 ==> (#[trigger] s.k.threads.slots@[i]).stack_pages == 0
                && s.k.threads.slots@[i].ipc_pa == 0,
    ensures
        sound(s, Seq::empty()),
{
    reveal(sound);
    memory::law_unused_memory_is_isolated(s);
}

#[verifier::spinoff_prover]
proof fn lemma_thread_installed(
    s: MachineView,
    t: MachineView,
    cx: Entry,
    memory: TaskMemory,
    mmio: Seq<MmioGrant>,
    irqs: Seq<IrqGrant>,
)
    requires
        unused(s.k),
        untouched(s, t),
    ensures
        ({
            let n = t.install_task(cx, memory, mmio, irqs);
            &&& vspace::write_xor_execute(n.k.spaces)
            &&& vspace::mappings_counted(n.k)
            &&& orderly(n)
            &&& numbered(n)
            &&& n.k.sched.ready_sequence == 1
            &&& n.k.task.active
            &&& n.k.threads.initialized
            &&& n.k.threads.runs(0)
        }),
{
    let n = t.install_task(cx, memory, mmio, irqs);
    assert forall|i: int| 0 <= i < 64 implies (#[trigger] n.k.frames@[i]).owner == 0 by {
        assert(s.k.frames@[i].owner == 0);
    }
    assert forall|j: int| 0 <= j < 128 implies (#[trigger] n.k.spaces.mappings@[j]).owner == 0 by {
        assert(s.k.spaces.mappings@[j].owner == 0);
    }
    mappings::law_no_frames_are_counted(n);
    let u = t.with_task(n.k.task).with_ipc(n.k.ipc);
    assert forall|i: int| 0 <= i < 16 implies scheduling::in_range(
        #[trigger] u.k.threads.slots@[i],
    ) && u.k.threads.slots@[i].state == ThreadState::Free by {
        assert(s.k.threads.slots@[i].state == ThreadState::Free);
    }
    scheduling::law_first_thread_is_orderly(
        u,
        cx,
        memory.loaded.entry,
        abi::USER_STACK_TOP,
        memory.ipc_pa,
    );
    assert(n == u.first_thread(cx, memory.loaded.entry, abi::USER_STACK_TOP, memory.ipc_pa));
    assert forall|i: int| 0 <= i < 16 implies (#[trigger] n.k.threads.slots@[i]).ready_sequence
        < n.k.sched.ready_sequence by {
        if i != 0 {
            assert(n.k.threads.slots@[i] == s.k.threads.slots@[i]);
        }
    }
}

/// The stacks of the other processors come from free pages, and nothing else changes.
proof fn lemma_stacks(s: MachineView, n: int)
    requires
        sound(s, Seq::empty()),
    ensures
        underway(s, s.secondary_stacks(n).0, Seq::empty()),
    decreases n,
{
    let none: Seq<FreeRange> = Seq::empty();
    if n > 1 {
        lemma_stacks(s, n - 1);
        let (t, tops) = s.secondary_stacks(n - 1);
        if tops is Some {
            let pages = crate::arch::smp::STACK_PAGES;
            lemma_aligned_alloc(t, none, pages, pages);
            let (mem, got) = t.k.mem.aligned_alloc(pages, pages);
            if let Some(pa) = got {
                let u = t.with_mem(mem);
                lemma_forgotten(u, none.push(run(pa, pages)));
                lemma_ops(u, s.secondary_stacks(n).0, none);
            }
        }
    }
}

/// The stacks of the other processors are made of pages that were free; every promise is kept.
pub proof fn law_stacks_are_taken_soundly(s: MachineView, n: int)
    requires
        s.wf(),
        memory_isolated(s),
        orderly(s),
    ensures
        ({
            let t = s.secondary_stacks(n).0;
            memory_isolated(t) && orderly(t) && untouched(s, t)
        }),
{
    lemma_sound(s);
    lemma_stacks(s, n);
    lemma_isolated(s.secondary_stacks(n).0);
    scheduling::lemma_elsewhere(s, s.secondary_stacks(n).0);
}

/// A processor that runs no thread yet joins, and may take its first one; every promise is kept.
pub proof fn law_processor_joins_soundly(
    s: MachineView,
    cx: Entry,
    root: u64,
    intid: u32,
    use_virtual: bool,
    frequency: u64,
)
    requires
        s.wf(),
        memory_isolated(s),
        orderly(s),
        cx.cpu < 4,
        scheduling::idle(s.k.threads, cx.cpu as int),
    ensures
        ({
            let t = s.secondary_entry(cx, root, intid, use_virtual, frequency).0;
            &&& memory_isolated(t)
            &&& orderly(t)
            &&& t.k.frames == s.k.frames
            &&& t.k.spaces.mappings == s.k.spaces.mappings
        }),
{
    let none: Seq<FreeRange> = Seq::empty();
    lemma_sound(s);
    let a = MachineView { k: Kernel { active_table: root, ..s.k }, ..s }.op(
        HwOp::SwitchTable { root, asid: 0 },
    ).with_ops(crate::interrupt::gic::Gic::cpu_interface_ops());
    lemma_objects(s, a, none);
    scheduling::lemma_elsewhere(s, a);
    let (b, timed) = a.sched_init(cx, intid, use_virtual, frequency);
    lemma_objects(a, b, none);
    lemma_timed(a, cx, intid, use_virtual, frequency);
    if timed {
        let c = MachineView {
            k: Kernel {
                smp: crate::arch::smp::Smp {
                    online_mask: b.k.smp.online_mask | (1u64 << cx.cpu),
                    ..b.k.smp
                },
                ..b.k
            },
            ..b
        }.op(HwOp::Sev);
        lemma_objects(b, c, none);
        scheduling::lemma_elsewhere(b, c);
        scheduling::lemma_wait_and_activate(c, cx);
        stillness::lemma_choice(c, cx);
        isolation::lemma_still_isolated(c, c.wait_and_activate(cx).0, none);
    }
    lemma_isolated(s.secondary_entry(cx, root, intid, use_virtual, frequency).0);
}

proof fn lemma_timed(
    s: MachineView,
    cx: Entry,
    intid: u32,
    use_virtual: bool,
    frequency: u64,
)
    requires
        orderly(s),
        cx.cpu < 4,
    ensures
        orderly(s.sched_init(cx, intid, use_virtual, frequency).0),
{
    let t = s.sched_init(cx, intid, use_virtual, frequency).0;
    assert forall|i: int| 0 <= i < 4 implies (#[trigger] t.k.sched.cpus@[i]).ready_bitmap
        == s.k.sched.cpus@[i].ready_bitmap by {}
    assert(scheduling::no_less(s, t));
    scheduling::lemma_no_less(s, t, -1);
}

/// Setting the timer of a processor up keeps every promise.
pub proof fn law_timer_starts_soundly(
    s: MachineView,
    cx: Entry,
    intid: u32,
    use_virtual: bool,
    frequency: u64,
)
    requires
        s.wf(),
        memory_isolated(s),
        orderly(s),
        cx.cpu < 4,
    ensures
        ({
            let t = s.sched_init(cx, intid, use_virtual, frequency).0;
            &&& memory_isolated(t)
            &&& orderly(t)
            &&& t.k.threads == s.k.threads
            &&& t.k.sched.ready_sequence == s.k.sched.ready_sequence
            &&& t.k.frames == s.k.frames
            &&& t.k.spaces == s.k.spaces
            &&& t.k.task == s.k.task
        }),
{
    lemma_sound(s);
    let t = s.sched_init(cx, intid, use_virtual, frequency).0;
    lemma_objects(s, t, Seq::empty());
    lemma_isolated(t);
    lemma_timed(s, cx, intid, use_virtual, frequency);
}

} // verus!
