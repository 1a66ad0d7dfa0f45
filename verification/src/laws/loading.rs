//! A program that was loaded lies where its headers say, holds what they say and allows what they
//! allow.
use crate::abi;
use crate::boot::elf::{self, number, LoadedElf};
use crate::boot::kmain::{self, TaskMemory};
use crate::boot_info::Framebuffer;
use crate::hw::HwOp;
use crate::laws::access::{self, mapped_as};
use crate::laws::grants::{self, begins};
use crate::machine::{Entry, MachineView};
use crate::memory::{mmu, physical};
use crate::object::task::OwnedPages;
use crate::object::thread::ThreadState;
use crate::resource::resources::PlatformResources;
use vstd::prelude::*;

verus! {

/// Where the image holds program header `i`.
pub open spec fn header_place(image: Seq<u8>, i: int) -> int {
    number(image, 32, 8) + i * number(image, 54, 2)
}

/// Program header `i` describes a segment that is loaded: it is of that kind, and not empty.
pub open spec fn is_loaded(image: Seq<u8>, i: int) -> bool {
    let at = header_place(image, i);
    number(image, at, 4) == 1 && number(image, at + 40, 8) != 0
}

/// How many of the first `i` program headers describe a segment that is loaded.
pub open spec fn loaded_before(image: Seq<u8>, i: int) -> int
    decreases i,
{
    if i <= 0 {
        0
    } else {
        loaded_before(image, i - 1) + if is_loaded(image, i - 1) {
            1int
        } else {
            0
        }
    }
}

/// EL0 sees the segment as its header says: every byte of its pages is mapped to the byte at the
/// same distance in the pages that were taken for it, can be read, can be written exactly if the
/// header's flags allow it, and executed exactly if they do. No flags allow both.
pub open spec fn segment_mapped(
    t: MachineView,
    root: u64,
    image: Seq<u8>,
    i: int,
    pages: OwnedPages,
) -> bool {
    let at = header_place(image, i);
    let execute = image[at + 4] % 2 == 1;
    let write = (image[at + 4] / 2) % 2 == 1;
    &&& !(write && execute)
    &&& pages.va == number(image, at + 16, 8)
    &&& pages.va % 4096 == 0
    &&& number(image, at + 40, 8) <= pages.pages * 4096 < number(image, at + 40, 8) + 4096
    &&& pages.executable == execute
    &&& forall|a: int|
        pages.va <= a < pages.va + pages.pages * 4096 ==> {
            &&& #[trigger] t.page_at(root, a) is Some
            &&& t.page_at(root, a)->0 & 0xffff_ffff_f000 == pages.pa + (a - pages.va) / 4096 * 4096
            &&& mmu::el0_may(t.page_at(root, a)->0, true, write, execute)
            &&& t.user_readable(root, a, 1)
            &&& t.user_writable(root, a, 1) == write
            &&& t.user_executable(root, a) == execute
        }
}

/// On the way from `s` to `t` the pages of the segment were filled: with zeros all over, and then
/// with the bytes of the image that its header names.
pub open spec fn segment_filled(
    s: MachineView,
    t: MachineView,
    image: Seq<u8>,
    i: int,
    pages: OwnedPages,
) -> bool {
    let at = header_place(image, i);
    exists|n: int|
        s.ops.len() <= n && n + 1 < t.ops.len() && #[trigger] t.ops[n] == (HwOp::Zero {
            pa: pages.pa,
            bytes: (pages.pages * 4096) as u64,
        }) && t.ops[n + 1] == (HwOp::CopyImage {
            pa: pages.pa,
            from: number(image, at + 8, 8) as u64,
            bytes: number(image, at + 32, 8) as u64,
        })
}

/// Address `a` lies in the pages of a loaded segment.
pub open spec fn in_segment(loaded: LoadedElf, a: int) -> bool {
    exists|k: int|
        0 <= k < loaded.segment_count && (#[trigger] loaded.segments@[k]).va <= a
            < loaded.segments@[k].va + loaded.segments@[k].pages * 4096
}

/// The first `index` program headers have been dealt with.
spec fn dealt(
    s: MachineView,
    t: MachineView,
    root: u64,
    image: Seq<u8>,
    index: int,
    loaded: LoadedElf,
) -> bool {
    &&& t.paging_ok()
    &&& begins(s.ops, t.ops)
    &&& loaded.wf()
    &&& loaded.apart()
    &&& loaded.entry == number(image, 24, 8)
    &&& loaded.segment_count == loaded_before(image, index)
    &&& forall|i: int|
        0 <= i < index && #[trigger] is_loaded(image, i) ==> 0 <= loaded_before(image, i)
            < loaded.segment_count && segment_mapped(
            t,
            root,
            image,
            i,
            loaded.segments@[loaded_before(image, i)],
        ) && segment_filled(s, t, image, i, loaded.segments@[loaded_before(image, i)])
    &&& forall|r: u64, a: int|
        0 <= a < 0x80_0000_0000 && !(r == root && in_segment(loaded, a)) ==> (
        #[trigger] t.page_at(r, a)) == s.page_at(r, a)
}

proof fn lemma_filled_stays(
    s: MachineView,
    t: MachineView,
    u: MachineView,
    image: Seq<u8>,
    i: int,
    pages: OwnedPages,
)
    requires
        segment_filled(s, t, image, i, pages),
        begins(t.ops, u.ops),
    ensures
        segment_filled(s, u, image, i, pages),
{
    let at = header_place(image, i);
    let n = choose|n: int|
        s.ops.len() <= n && n + 1 < t.ops.len() && #[trigger] t.ops[n] == (HwOp::Zero {
            pa: pages.pa,
            bytes: (pages.pages * 4096) as u64,
        }) && t.ops[n + 1] == (HwOp::CopyImage {
            pa: pages.pa,
            from: number(image, at + 8, 8) as u64,
            bytes: number(image, at + 32, 8) as u64,
        });
    assert(u.ops[n] == t.ops[n]);
    assert(u.ops[n + 1] == t.ops[n + 1]);
}

/// A segment stays as it is where its pages do.
proof fn lemma_mapped_stays(
    t: MachineView,
    u: MachineView,
    root: u64,
    image: Seq<u8>,
    i: int,
    pages: OwnedPages,
)
    requires
        segment_mapped(t, root, image, i, pages),
        forall|a: int|
            pages.va <= a < pages.va + pages.pages * 4096 ==> #[trigger] u.page_at(root, a)
                == t.page_at(root, a),
    ensures
        segment_mapped(u, root, image, i, pages),
{
    assert forall|a: int| pages.va <= a < pages.va + pages.pages * 4096 implies {
        &&& u.user_readable(root, a, 1) == t.user_readable(root, a, 1)
        &&& u.user_writable(root, a, 1) == t.user_writable(root, a, 1)
        &&& u.user_executable(root, a) == t.user_executable(root, a)
        &&& #[trigger] u.page_at(root, a) == t.page_at(root, a)
    } by {
        access::lemma_same_access(u, t, root, a);
    }
}

/// The flags of a header begin with its two low bits.
proof fn lemma_flags(image: Seq<u8>, at: int)
    ensures
        elf::segment_at(image, at).executable() == (image[at + 4] % 2 == 1),
        elf::segment_at(image, at).writable() == ((image[at + 4] / 2) % 2 == 1),
{
    let rest = number(image, at + 5, 3);
    assert(number(image, at + 4, 4) == image[at + 4] + 256 * number(image, at + 4 + 1, 3 as nat));
    lemma_low_bits(image[at + 4] as int, rest);
}

proof fn lemma_low_bits(low: int, rest: int)
    ensures
        (low + 256 * rest) % 2 == low % 2,
        ((low + 256 * rest) / 2) % 2 == (low / 2) % 2,
{
    assert((low + 256 * rest) / 2 == low / 2 + 128 * rest);
}

#[verifier::spinoff_prover]
proof fn lemma_place(
    s: MachineView,
    t: MachineView,
    root: u64,
    image: Seq<u8>,
    index: int,
    loaded: LoadedElf,
)
    requires
        dealt(s, t, root, image, index, loaded),
        0 <= index,
        is_loaded(image, index),
        loaded.segment_count < 8,
        ({
            let at = header_place(image, index);
            let segment = elf::segment_at(image, at);
            &&& !(segment.executable() && segment.writable())
            &&& loaded.objection(image, at) is None
            &&& t.place_segment(root, image, at, loaded).1 is Ok
        }),
    ensures
        ({
            let at = header_place(image, index);
            let (u, more) = t.place_segment(root, image, at, loaded);
            dealt(s, u, root, image, index + 1, more->Ok_0)
        }),
{
    let at = header_place(image, index);
    let segment = elf::segment_at(image, at);
    let (u, r) = t.place_segment(root, image, at, loaded);
    let more = r->Ok_0;
    lemma_flags(image, at);
    elf::lemma_number_fits(image, at + 16, 8);
    elf::lemma_number_fits(image, at + 8, 8);
    elf::lemma_number_fits(image, at + 32, 8);
    elf::lemma_number_fits(image, at + 40, 8);
    let pages = segment.pages();
    assert(0 < pages < 0x800_0000);
    physical::lemma_pages_alloc_ok(t.k.mem, pages as u64);
    let (mem, run) = t.k.mem.pages_alloc(pages as u64);
    let pa = run->0;
    let taken = t.with_mem(mem);
    let zeroed = taken.op(HwOp::Zero { pa, bytes: (pages * 4096) as u64 });
    let filled = zeroed.op(
        HwOp::CopyImage {
            pa,
            from: segment.file_offset as u64,
            bytes: segment.file_size as u64,
        },
    );
    assert(filled.tables == t.tables);
    assert(filled.paging_ok());
    let flags = segment.map_flags();
    mmu::law_map_run(filled, root, segment.vaddr, pa as int, flags, pages);
    grants::lemma_map_run_begins(filled, root, segment.vaddr, pa as int, flags, pages);
    assert(u == filled.map_run(root, segment.vaddr, pa as int, flags, pages).0);
    let owned = OwnedPages {
        va: segment.vaddr as u64,
        pa,
        pages: pages as u64,
        executable: segment.executable(),
    };
    assert(more == loaded.with(owned));
    elf::lemma_segment_added(loaded, owned, segment.mem_size);
    let k = loaded.segment_count as int;
    assert(more.segments@[k] == owned);
    assert(forall|j: int| 0 <= j < k ==> more.segments@[j] == loaded.segments@[j]);
    assert(begins(t.ops, u.ops)) by {
        assert forall|n: int| 0 <= n < t.ops.len() implies u.ops[n] == t.ops[n] by {
            assert(filled.ops[n] == t.ops[n]);
        }
    }
    assert(begins(s.ops, u.ops));
    mmu::lemma_translates(u, root, segment.vaddr, pa as int, pages, flags);
    assert(segment_mapped(u, root, image, index, owned)) by {
        assert forall|a: int| owned.va <= a < owned.va + owned.pages * 4096 implies {
            &&& #[trigger] u.page_at(root, a) is Some
            &&& u.page_at(root, a)->0 & 0xffff_ffff_f000 == pa + (a - owned.va) / 4096 * 4096
            &&& mmu::el0_may(
                u.page_at(root, a)->0,
                true,
                segment.writable(),
                segment.executable(),
            )
            &&& u.user_readable(root, a, 1)
            &&& u.user_writable(root, a, 1) == segment.writable()
            &&& u.user_executable(root, a) == segment.executable()
        } by {
            let page = (pa + (a - owned.va) / 4096 * 4096) as u64;
            assert(0 <= (a - owned.va) / 4096 < pages);
            assert(page % 4096 == 0);
            assert(u.page_at(root, a) == Some(mmu::page_word(page, flags)));
            mmu::law_presets_mean(page);
            mmu::law_access_is_in_descriptor(u, root, a);
        }
    }
    assert(segment_filled(s, u, image, index, owned)) by {
        let n = t.ops.len() as int;
        assert(filled.ops[n] == zeroed.ops[n]);
        assert(u.ops[n] == filled.ops[n]);
        assert(u.ops[n + 1] == filled.ops[n + 1]);
    }
    assert(loaded_before(image, index + 1) == loaded_before(image, index) + 1);
    assert forall|r: u64, a: int|
        0 <= a < 0x80_0000_0000 && !(r == root && in_segment(more, a)) implies (#[trigger] u.page_at(
        r,
        a,
    )) == s.page_at(r, a) by {
        if r == root {
            mmu::lemma_run_range(a, segment.vaddr, pages);
            if owned.va <= a < owned.va + owned.pages * 4096 {
                assert(more.segments@[k].va <= a);
                assert(in_segment(more, a));
            }
            if in_segment(loaded, a) {
                let j = choose|j: int|
                    0 <= j < loaded.segment_count && (#[trigger] loaded.segments@[j]).va <= a
                        < loaded.segments@[j].va + loaded.segments@[j].pages * 4096;
                assert(more.segments@[j].va <= a);
                assert(in_segment(more, a));
            }
        }
        assert(filled.page_at(r, a) == t.page_at(r, a));
    }
    assert forall|i: int| 0 <= i < index + 1 && #[trigger] is_loaded(image, i) implies 0
        <= loaded_before(image, i) < more.segment_count && segment_mapped(
        u,
        root,
        image,
        i,
        more.segments@[loaded_before(image, i)],
    ) && segment_filled(s, u, image, i, more.segments@[loaded_before(image, i)]) by {
        if i < index {
            let j = loaded_before(image, i);
            let old = loaded.segments@[j];
            assert(more.segments@[j] == old);
            lemma_filled_stays(s, t, u, image, i, old);
            assert forall|a: int| old.va <= a < old.va + old.pages * 4096 implies #[trigger] u.page_at(
                root,
                a,
            ) == t.page_at(root, a) by {
                mmu::lemma_run_range(a, segment.vaddr, pages);
                assert(more.segments@[k] == owned);
                assert(filled.page_at(root, a) == t.page_at(root, a));
            }
            lemma_mapped_stays(t, u, root, image, i, old);
            assert(segment_mapped(u, root, image, i, old));
        }
    }
}

proof fn lemma_headers(
    s: MachineView,
    t: MachineView,
    root: u64,
    image: Seq<u8>,
    index: int,
    loaded: LoadedElf,
)
    requires
        dealt(s, t, root, image, index, loaded),
        0 <= index <= number(image, 56, 2),
        t.load_headers(root, image, index, loaded).1 is Ok,
    ensures
        ({
            let (u, r) = t.load_headers(root, image, index, loaded);
            dealt(s, u, root, image, number(image, 56, 2), r->Ok_0)
        }),
    decreases number(image, 56, 2) - index,
{
    if index < number(image, 56, 2) {
        let (u, r) = t.load_header(root, image, index, loaded);
        let at = header_place(image, index);
        assert(at == elf::header_at(image, index));
        let more = r->Ok_0;
        if is_loaded(image, index) {
            lemma_place(s, t, root, image, index, loaded);
        } else {
            assert(more == loaded && u == t);
            assert(loaded_before(image, index + 1) == loaded_before(image, index));
            assert(dealt(s, u, root, image, index + 1, more));
        }
        lemma_headers(s, u, root, image, index + 1, more);
    }
}

/// A program that was loaded starts at the entry point of its image. Each program header that
/// describes a segment has its segment, in their order. The pages of the segment are mapped in
/// order from the address that the header names, are writable for EL0 exactly if the header's
/// flags say so and executable exactly if they do, and were filled with zeros and then with the
/// segment's bytes of the image. No address outside the segments is mapped in another way than
/// before.
pub proof fn law_segments_are_as_headers_say(s: MachineView, root: u64, image: Seq<u8>)
    requires
        s.wf(),
        s.load_elf(root, image).1 is Ok,
    ensures
        ({
            let (t, r) = s.load_elf(root, image);
            let loaded = r->Ok_0;
            &&& loaded.entry == number(image, 24, 8)
            &&& loaded.segment_count == loaded_before(image, number(image, 56, 2))
            &&& loaded.segment_count > 0
            &&& forall|i: int|
                0 <= i < number(image, 56, 2) && #[trigger] is_loaded(image, i) ==> {
                    let pages = loaded.segments@[loaded_before(image, i)];
                    &&& 0 <= loaded_before(image, i) < loaded.segment_count
                    &&& segment_mapped(t, root, image, i, pages)
                    &&& segment_filled(s, t, image, i, pages)
                }
            &&& forall|r: u64, a: int|
                0 <= a < 0x80_0000_0000 && !(r == root && in_segment(loaded, a)) ==> (
                #[trigger] t.page_at(r, a)) == s.page_at(r, a)
        }),
{
    elf::lemma_number_fits(image, 24, 8);
    elf::lemma_number_fits(image, 56, 2);
    let nothing = LoadedElf::nothing(number(image, 24, 8) as u64);
    assert(dealt(s, s, root, image, 0, nothing));
    lemma_headers(s, s, root, image, 0, nothing);
    lemma_not_empty(s, root, image, 0, nothing);
}

proof fn lemma_not_empty(
    t: MachineView,
    root: u64,
    image: Seq<u8>,
    index: int,
    loaded: LoadedElf,
)
    requires
        t.load_headers(root, image, index, loaded).1 is Ok,
    ensures
        t.load_headers(root, image, index, loaded).1->Ok_0.segment_count > 0,
    decreases number(image, 56, 2) - index,
{
    if index < number(image, 56, 2) {
        let (u, r) = t.load_header(root, image, index, loaded);
        lemma_not_empty(u, root, image, index + 1, r->Ok_0);
    }
}

/// The task finds its own memory in its places: what it is told of the platform, to read; its heap
/// and its stack, to read and write; and the message page of its first thread.
pub open spec fn task_memory_mapped(t: MachineView, root: u64, memory: TaskMemory) -> bool {
    &&& mapped_as(
        t,
        root,
        abi::USER_BOOT_INFO_VA as int,
        memory.boot_info_pa as int,
        1,
        false,
        false,
        0,
    )
    &&& mapped_as(
        t,
        root,
        abi::USER_HEAP_BASE as int,
        memory.heap_pa as int,
        1024,
        true,
        false,
        0,
    )
    &&& mapped_as(
        t,
        root,
        abi::USER_STACK_TOP - 0x1_0000,
        memory.stack_pa as int,
        16,
        true,
        false,
        0,
    )
    &&& mapped_as(
        t,
        root,
        abi::THREAD_IPC_BUFFER_BASE as int,
        memory.ipc_pa as int,
        1,
        true,
        false,
        0,
    )
}

/// The places of the task's own memory.
pub open spec fn in_task_memory(a: int) -> bool {
    ||| abi::USER_BOOT_INFO_VA <= a < abi::USER_BOOT_INFO_VA + 4096
    ||| abi::USER_HEAP_BASE <= a < abi::USER_HEAP_BASE + abi::USER_HEAP_SIZE
    ||| abi::USER_STACK_TOP - 0x1_0000 <= a < abi::USER_STACK_TOP
    ||| abi::THREAD_IPC_BUFFER_BASE <= a < abi::THREAD_IPC_BUFFER_BASE + 4096
}

#[verifier::spinoff_prover]
proof fn lemma_map_task(s: MachineView, root: u64, memory: TaskMemory)
    requires
        s.paging_ok(),
        memory.wf(),
        s.map_task(root, memory).1 is None,
    ensures
        ({
            let t = s.map_task(root, memory).0;
            &&& t.paging_ok()
            &&& task_memory_mapped(t, root, memory)
            &&& forall|r: u64, a: int|
                0 <= a < 0x80_0000_0000 && !(r == root && in_task_memory(a)) ==> (
                #[trigger] t.page_at(r, a)) == s.page_at(r, a)
        }),
{
    let v1 = abi::USER_BOOT_INFO_VA as int;
    let v2 = abi::USER_HEAP_BASE as int;
    let v3 = abi::USER_STACK_TOP - 65536;
    let v4 = abi::THREAD_IPC_BUFFER_BASE as int;
    let p1 = memory.boot_info_pa as int;
    let p2 = memory.heap_pa as int;
    let p3 = memory.stack_pa as int;
    let p4 = memory.ipc_pa as int;
    access::lemma_map_run(s, root, v1, p1, mmu::MMU_USER_RO, 1, false, false, 0);
    let a1 = s.map_run(root, v1, p1, mmu::MMU_USER_RO, 1).0;
    access::lemma_map_run(a1, root, v2, p2, mmu::MMU_USER_RW, 1024, true, false, 0);
    let a2 = a1.map_run(root, v2, p2, mmu::MMU_USER_RW, 1024).0;
    access::lemma_map_run(a2, root, v3, p3, mmu::MMU_USER_RW, 16, true, false, 0);
    let a3 = a2.map_run(root, v3, p3, mmu::MMU_USER_RW, 16).0;
    access::lemma_map_run(a3, root, v4, p4, mmu::MMU_USER_RW, 1, true, false, 0);
    let a4 = a3.map_run(root, v4, p4, mmu::MMU_USER_RW, 1).0;
    let t = s.map_task(root, memory).0;
    assert(t == a4);
    assert forall|a: int| v1 <= a < v1 + 1 * 4096 implies #[trigger] t.page_at(root, a)
        == a1.page_at(root, a) by {
        assert(a2.page_at(root, a) == a1.page_at(root, a));
        assert(a3.page_at(root, a) == a2.page_at(root, a));
    }
    access::lemma_mapped_stays(a1, t, root, v1, p1, 1, false, false, 0);
    assert forall|a: int| v2 <= a < v2 + 1024 * 4096 implies #[trigger] t.page_at(root, a)
        == a2.page_at(root, a) by {
        assert(a3.page_at(root, a) == a2.page_at(root, a));
    }
    access::lemma_mapped_stays(a2, t, root, v2, p2, 1024, true, false, 0);
    assert forall|a: int| v3 <= a < v3 + 16 * 4096 implies #[trigger] t.page_at(root, a)
        == a3.page_at(root, a) by {}
    access::lemma_mapped_stays(a3, t, root, v3, p3, 16, true, false, 0);
    assert forall|r: u64, a: int|
        0 <= a < 0x80_0000_0000 && !(r == root && in_task_memory(a)) implies (#[trigger] t.page_at(
        r,
        a,
    )) == s.page_at(r, a) by {
        assert(a1.page_at(r, a) == s.page_at(r, a));
        assert(a2.page_at(r, a) == a1.page_at(r, a));
        assert(a3.page_at(r, a) == a2.page_at(r, a));
    }
}

/// The console and the display lie in reach of a table, and the console outside the user window.
pub open spec fn devices_elsewhere(uart: u64, fb: Framebuffer) -> bool {
    &&& uart < abi::USER_BASE || abi::USER_WINDOW_END <= uart
    &&& uart < 0x80_0000_0000
    &&& fb.base + fb.size <= 0x7f_0000_0000
}

#[verifier::spinoff_prover]
proof fn lemma_complete(s: MachineView, root: u64, uart: u64, fb: Framebuffer, memory: TaskMemory)
    requires
        s.paging_ok(),
        memory.wf(),
        devices_elsewhere(uart, fb),
        s.complete_stage1(root, uart, fb, memory).1 is None,
    ensures
        ({
            let t = s.complete_stage1(root, uart, fb, memory).0;
            &&& task_memory_mapped(t, root, memory)
            &&& forall|a: int|
                abi::USER_BASE <= a < abi::USER_WINDOW_END && !in_task_memory(a) ==> (
                #[trigger] t.page_at(root, a)) == s.page_at(root, a)
        }),
{
    mmu::lemma_kernel_presets();
    let block = uart - uart % 0x20_0000;
    mmu::law_map_block(s, root, block, block as u64, mmu::MMU_DEV);
    let a1 = if uart != 0 {
        s.map_device(root, uart).0
    } else {
        s
    };
    assert(a1.paging_ok());
    let a2 = a1.map_display(root, fb).0;
    if !(fb.base == 0 || fb.size == 0) {
        crate::util::lemma_round_up(fb.base + fb.size, 0x20_0000);
        mmu::law_map_blocks(
            a1,
            root,
            fb.base - fb.base % 0x20_0000,
            mmu::MMU_DEV,
            abi::USER_BASE as int,
            abi::USER_WINDOW_END as int,
            mmu::blocks_in(fb.base as int, fb.base + fb.size),
        );
    }
    assert(a2.paging_ok());
    lemma_map_task(a2, root, memory);
    let a3 = a2.map_task(root, memory).0;
    let t = s.complete_stage1(root, uart, fb, memory).0;
    assert(t.tables == a3.tables);
    lemma_task_memory_stays(a3, t, root, memory);
    assert forall|a: int|
        abi::USER_BASE <= a < abi::USER_WINDOW_END && !in_task_memory(a) implies (
    #[trigger] t.page_at(root, a)) == s.page_at(root, a) by {
        assert(t.page_at(root, a) == a3.page_at(root, a));
        assert(a3.page_at(root, a) == a2.page_at(root, a));
        mmu::lemma_same_block(a, block);
        assert(a1.page_at(root, a) == s.page_at(root, a));
        assert(a2.page_at(root, a) == a1.page_at(root, a));
    }
}

proof fn lemma_task_memory_stays(s: MachineView, t: MachineView, root: u64, memory: TaskMemory)
    requires
        task_memory_mapped(s, root, memory),
        t.tables == s.tables,
    ensures
        task_memory_mapped(t, root, memory),
{
    assert forall|a: int| #[trigger] t.page_at(root, a) == s.page_at(root, a) by {}
    access::lemma_mapped_stays(
        s,
        t,
        root,
        abi::USER_BOOT_INFO_VA as int,
        memory.boot_info_pa as int,
        1,
        false,
        false,
        0,
    );
    access::lemma_mapped_stays(
        s,
        t,
        root,
        abi::USER_HEAP_BASE as int,
        memory.heap_pa as int,
        1024,
        true,
        false,
        0,
    );
    access::lemma_mapped_stays(
        s,
        t,
        root,
        abi::USER_STACK_TOP - 0x1_0000,
        memory.stack_pa as int,
        16,
        true,
        false,
        0,
    );
    access::lemma_mapped_stays(
        s,
        t,
        root,
        abi::THREAD_IPC_BUFFER_BASE as int,
        memory.ipc_pa as int,
        1,
        true,
        false,
        0,
    );
}

/// The task that was booted starts at the entry point of its program, on the first processor, with
/// its stack pointer at the top of its stack and the place of what it is told in the first
/// register. Its program is mapped as its headers say, and its own memory is in its places; all
/// of it is recorded as the task's.
#[verifier::spinoff_prover]
#[verifier::rlimit(40)]
pub proof fn law_booted_task_is_ready(
    s: MachineView,
    cx: Entry,
    root: u64,
    p: PlatformResources,
    fb: Framebuffer,
    image: Seq<u8>,
)
    requires
        s.wf(),
        devices_elsewhere(p.uart.base, fb),
        s.boot_task(cx, root, p, fb, image).1 is Ok,
    ensures
        ({
            let (t, entry) = s.boot_task(cx, root, p, fb, image);
            let first = t.k.threads.slots@[0];
            let task = t.k.task;
            let memory = TaskMemory {
                loaded: s.load_elf(root, image).1->Ok_0,
                stack_pa: task.stack_pa,
                heap_pa: task.heap_pa,
                boot_info_pa: task.boot_info_pa,
                ipc_pa: first.ipc_pa,
            };
            &&& entry->Ok_0 == number(image, 24, 8)
            &&& first.state == ThreadState::Running
            &&& first.running_cpu == 0
            &&& t.k.threads.current@[0] == 0
            &&& first.context.elr_el1 == number(image, 24, 8)
            &&& first.context.sp_el0 == abi::USER_STACK_TOP
            &&& first.context.spsr_el1 == 0
            &&& first.context.x@[0] == abi::USER_BOOT_INFO_VA
            &&& first.ipc_va == abi::THREAD_IPC_BUFFER_BASE
            &&& task.active
            &&& task_memory_mapped(t, root, memory)
            &&& task.owned_count == loaded_before(image, number(image, 56, 2))
            &&& forall|i: int|
                0 <= i < number(image, 56, 2) && #[trigger] is_loaded(image, i) ==> {
                    let pages = task.owned@[loaded_before(image, i)];
                    &&& 0 <= loaded_before(image, i) < task.owned_count
                    &&& segment_mapped(t, root, image, i, pages)
                }
        }),
{
    law_segments_are_as_headers_say(s, root, image);
    elf::lemma_number_fits(image, 24, 8);
    let (a, loaded) = s.load_elf(root, image);
    let program = loaded->Ok_0;
    let nothing = LoadedElf::nothing(number(image, 24, 8) as u64);
    elf::lemma_number_fits(image, 56, 2);
    assert(dealt(s, s, root, image, 0, nothing));
    lemma_headers(s, s, root, image, 0, nothing);
    assert(program.wf());
    assert(a.paging_ok());
    lemma_task_pages(a, program);
    let (b, memory) = a.take_task_pages(program);
    let memory = memory->0;
    let (c, _) = s.load_task(root, image, kmain::told(p));
    assert(c.tables == a.tables);
    assert(c.k.mem == b.k.mem);
    lemma_complete(c, root, p.uart.base, fb, memory);
    let d = c.complete_stage1(root, p.uart.base, fb, memory).0;
    let (t, entry) = s.boot_task(cx, root, p, fb, image);
    assert(t.tables == d.tables);
    lemma_task_memory_stays(d, t, root, memory);
    let segments = program.segments@.take(program.segment_count as int);
    crate::util::lemma_with_prefix(
        crate::object::task::TaskResources::none().owned,
        segments,
        program.segment_count as int,
    );
    assert forall|i: int| 0 <= i < number(image, 56, 2) && #[trigger] is_loaded(
        image,
        i,
    ) implies {
        let pages = t.k.task.owned@[loaded_before(image, i)];
        &&& 0 <= loaded_before(image, i) < t.k.task.owned_count
        &&& segment_mapped(t, root, image, i, pages)
    } by {
        let j = loaded_before(image, i);
        let pages = program.segments@[j];
        assert(t.k.task.owned@[j] == pages);
        assert(pages.va + pages.pages * 4096 <= abi::USER_BOOT_INFO_VA);
        assert forall|x: int| pages.va <= x < pages.va + pages.pages * 4096 implies #[trigger] t.page_at(
            root,
            x,
        ) == a.page_at(root, x) by {
            assert(t.page_at(root, x) == d.page_at(root, x));
            assert(d.page_at(root, x) == c.page_at(root, x));
            assert(c.page_at(root, x) == a.page_at(root, x));
        }
        lemma_mapped_stays(a, t, root, image, i, pages);
    }
}

proof fn lemma_task_pages(s: MachineView, loaded: LoadedElf)
    requires
        s.paging_ok(),
        loaded.wf(),
        s.take_task_pages(loaded).1 is Some,
    ensures
        s.take_task_pages(loaded).1->0.wf(),
        s.take_task_pages(loaded).0.paging_ok(),
        s.take_task_pages(loaded).0.tables == s.tables,
{
    physical::lemma_pages_alloc_ok(s.k.mem, 16);
    let a = s.take_pages(16).0;
    physical::lemma_pages_alloc_ok(a.k.mem, 1024);
    let b = a.take_pages(1024).0;
    physical::lemma_pages_alloc_ok(b.k.mem, 1);
    let c = b.take_pages(1).0;
    physical::lemma_pages_alloc_ok(c.k.mem, 1);
}


/// The memory of a new task was filled with zeros before it got it, and what it is told of its
/// platform was written into the page for it after that.
pub proof fn law_task_memory_is_fresh(
    s: MachineView,
    root: u64,
    image: Seq<u8>,
    info: abi::UserBootInfo,
)
    requires
        s.load_task(root, image, info).1 is Ok,
    ensures
        ({
            let (t, r) = s.load_task(root, image, info);
            let memory = r->Ok_0;
            let n = t.ops.len() as int;
            &&& n >= 4
            &&& t.ops[n - 4] == (HwOp::Zero { pa: memory.stack_pa, bytes: 0x1_0000 })
            &&& t.ops[n - 3] == (HwOp::Zero { pa: memory.heap_pa, bytes: 0x40_0000 })
            &&& t.ops[n - 2] == (HwOp::Zero { pa: memory.boot_info_pa, bytes: 0x1000 })
            &&& t.ops[n - 1] == (HwOp::WriteBootInfo { pa: memory.boot_info_pa, info })
        }),
{
}

} // verus!
