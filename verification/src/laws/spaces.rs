//! What an address space holds from the start: the kernel, its devices, and the task's own memory.
use crate::abi;
use crate::laws::access;
use crate::laws::exchange::{asks, results_in};
use crate::machine::{Dispatch, Entry, MachineView};
use crate::memory::{mmu, vspace};
use crate::syscall::dispatch::TrapFrame;
use vstd::prelude::*;

verus! {

/// The first address of the 2 MiB block that holds `a`.
pub open spec fn block_of(a: int) -> int {
    a - a % 0x20_0000
}

/// One of the first `k` devices that the kernel needs is in the block of `a`.
pub open spec fn device_in_block(s: MachineView, k: int, a: int) -> bool {
    exists|i: int| 0 <= i < k && #[trigger] s.k.spaces.device_blocks@[i] == block_of(a)
}

/// The devices that the kernel needs are in blocks that a table can hold.
pub open spec fn devices_in_reach(s: MachineView) -> bool {
    s.k.spaces.device_count <= 3 && forall|i: int|
        0 <= i < s.k.spaces.device_count ==> (#[trigger] s.k.spaces.device_blocks@[i])
            % 0x20_0000 == 0 && s.k.spaces.device_blocks@[i] < 0x80_0000_0000
}

/// The kernel finds at `a` the same physical address, in a block that EL0 has no access to.
pub open spec fn kernel_only(s: MachineView, root: u64, a: int, kind: u64) -> bool {
    &&& s.page_at(root, a) is None
    &&& s.block_at(root, a) is Some
    &&& s.block_at(root, a)->0 & 0x40 == 0
    &&& s.block_at(root, a)->0 & 0x80 == 0
    &&& s.block_at(root, a)->0 & 0xffff_ffff_f000 == block_of(a)
    &&& mmu::memory_type(s.block_at(root, a)->0) == kind
}

proof fn lemma_map_devices(s: MachineView, root: u64, k: int)
    requires
        s.paging_ok(),
        devices_in_reach(s),
        0 <= k <= s.k.spaces.device_count,
        s.map_devices(root, k).1 is None,
    ensures
        ({
            let t = s.map_devices(root, k).0;
            &&& t.paging_ok()
            &&& t.k.spaces == s.k.spaces
            &&& forall|r: u64, a: int|
                0 <= a < 0x80_0000_0000 ==> (#[trigger] t.block_at(r, a)) == if r == root
                    && device_in_block(s, k, a) {
                    Some(mmu::block_word(block_of(a) as u64, mmu::MMU_DEV))
                } else {
                    s.block_at(r, a)
                }
            &&& forall|r: u64, a: int|
                0 <= a < 0x80_0000_0000 ==> (#[trigger] t.page_at(r, a)) == if r == root
                    && device_in_block(s, k, a) {
                    None
                } else {
                    s.page_at(r, a)
                }
        }),
    decreases k,
{
    if k > 0 {
        lemma_map_devices(s, root, k - 1);
        let b = s.map_devices(root, k - 1).0;
        let t = s.map_devices(root, k).0;
        let block = s.k.spaces.device_blocks@[k - 1];
        mmu::lemma_kernel_presets();
        mmu::law_map_block(b, root, block as int, block, mmu::MMU_DEV);
        vspace::lemma_map_block_frame(b, root, block as int, block, mmu::MMU_DEV);
        assert forall|a: int| 0 <= a < 0x80_0000_0000 implies #[trigger] device_in_block(s, k, a)
            == (device_in_block(s, k - 1, a) || mmu::same_block(a, block as int)) by {
            mmu::lemma_same_block(a, block as int);
            if device_in_block(s, k, a) {
                let i = choose|i: int|
                    0 <= i < k && #[trigger] s.k.spaces.device_blocks@[i] == block_of(a);
                if i < k - 1 {
                    assert(s.k.spaces.device_blocks@[i] == block_of(a));
                }
            }
            if device_in_block(s, k - 1, a) {
                let i = choose|i: int|
                    0 <= i < k - 1 && #[trigger] s.k.spaces.device_blocks@[i] == block_of(a);
                assert(s.k.spaces.device_blocks@[i] == block_of(a));
            }
            if mmu::same_block(a, block as int) {
                assert(s.k.spaces.device_blocks@[k - 1] == block_of(a));
            }
        }
        assert forall|r: u64, a: int| 0 <= a < 0x80_0000_0000 implies (#[trigger] t.block_at(r, a))
            == if r == root && device_in_block(s, k, a) {
            Some(mmu::block_word(block_of(a) as u64, mmu::MMU_DEV))
        } else {
            s.block_at(r, a)
        } by {
            assert(device_in_block(s, k, a) == (device_in_block(s, k - 1, a) || mmu::same_block(
                a,
                block as int,
            )));
            mmu::lemma_same_block(a, block as int);
            assert(b.block_at(r, a) == b.block_at(r, a));
        }
        assert forall|r: u64, a: int| 0 <= a < 0x80_0000_0000 implies (#[trigger] t.page_at(r, a))
            == if r == root && device_in_block(s, k, a) {
            None
        } else {
            s.page_at(r, a)
        } by {
            assert(device_in_block(s, k, a) == (device_in_block(s, k - 1, a) || mmu::same_block(
                a,
                block as int,
            )));
            assert(b.page_at(r, a) == b.page_at(r, a));
        }
    } else {
        assert forall|a: int| !device_in_block(s, 0, a) by {}
    }
}

/// A new address space maps the first 6 GiB to themselves for the kernel alone, but for the user
/// window, and the kernel's devices as devices. EL0 can reach nothing in it. It is found by its
/// handle, belongs to its maker, and has neither threads nor mappings. No other address space
/// changes.
#[verifier::spinoff_prover]
#[verifier::rlimit(40)]
pub proof fn law_new_space_is_the_kernels(s: MachineView, cx: Entry, frame: TrapFrame, a: int)
    requires
        asks(s, cx, frame, abi::SYS_VSPACE_CREATE),
        devices_in_reach(s),
        s.new_table().1 is Some ==> s.table(s.new_table().1->0) is None,
        0 <= a < 0x80_0000_0000,
        s.svc_frame(cx, frame).2 == Dispatch::Return,
        !abi::sys_error(s.svc_frame(cx, frame).1.x@[0]),
    ensures
        ({
            let (t, result, next) = s.svc_frame(cx, frame);
            let found = t.k.spaces.find_for(s.k.task.owner(), result.x@[0]);
            let slot = found->Ok_0;
            let root = t.k.spaces.spaces@[slot].root_pa;
            &&& results_in(frame, result, result.x@[0])
            &&& found is Ok
            &&& 1 <= slot < 8
            &&& !s.k.spaces.spaces@[slot].active
            &&& t.k.spaces.spaces@[slot].active_thread_count == 0
            &&& t.k.spaces.spaces@[slot].mapping_count == 0
            &&& t.k.spaces.spaces@[slot].asid == slot + 1
            &&& if device_in_block(s, s.k.spaces.device_count as int, a) {
                kernel_only(t, root, a, access::DEVICE)
            } else if a < 0x1_8000_0000 && !(abi::USER_BASE <= a < abi::USER_WINDOW_END) {
                kernel_only(t, root, a, access::CACHED)
            } else {
                t.page_at(root, a) is None && t.block_at(root, a) is None
            }
            &&& forall|r: u64, x: int|
                r != root && 0 <= x < 0x80_0000_0000 ==> #[trigger] t.page_at(r, x) == s.page_at(
                    r,
                    x,
                )
            &&& forall|r: u64, x: int|
                r != root && 0 <= x < 0x80_0000_0000 ==> #[trigger] t.block_at(r, x) == s.block_at(
                    r,
                    x,
                )
        }),
{
    let owner = s.k.task.owner();
    let (t, result, next) = s.svc_frame(cx, frame);
    let slot = s.k.spaces.free_space(1)->0;
    lemma_free_space(s, 1);
    mmu::law_new_table_is_empty(s);
    let (b, table) = s.new_table();
    let root = table->0;
    lemma_new_table_frame(s);
    mmu::lemma_kernel_presets();
    let low = abi::USER_BASE as int;
    let high = abi::USER_WINDOW_END as int;
    mmu::law_map_blocks(b, root, 0, mmu::MMU_KERNEL, low, high, 0xc00);
    vspace::lemma_map_blocks_frame(b, root, 0, mmu::MMU_KERNEL, low, high, 0xc00);
    let c = b.map_blocks(root, 0, mmu::MMU_KERNEL, low, high, 0xc00).0;
    lemma_map_devices(c, root, c.k.spaces.device_count as int);
    let d = c.map_devices(root, c.k.spaces.device_count as int).0;
    let generation = s.k.spaces.spaces@[slot].generation;
    assert(crate::handle::generation_ok(generation));
    crate::handle::law_handle_round_trip(slot, generation, 8);
    assert(t.tables == d.tables);
    assert(t.page_at(root, a) == d.page_at(root, a));
    assert(t.block_at(root, a) == d.block_at(root, a));
    assert(device_in_block(c, c.k.spaces.device_count as int, a) == device_in_block(
        s,
        s.k.spaces.device_count as int,
        a,
    ));
    mmu::law_kernel_blocks_mean(block_of(a) as u64);
    assert(b.block_at(root, a) is None && b.page_at(root, a) is None);
    assert(c.page_at(root, a) is None);
    assert forall|r: u64, x: int| r != root && 0 <= x < 0x80_0000_0000 implies #[trigger] t.page_at(
        r,
        x,
    ) == s.page_at(r, x) by {
        assert(t.page_at(r, x) == d.page_at(r, x));
        assert(d.page_at(r, x) == c.page_at(r, x));
        assert(c.page_at(r, x) == b.page_at(r, x));
    }
    assert forall|r: u64, x: int| r != root && 0 <= x < 0x80_0000_0000 implies #[trigger] t.block_at(
        r,
        x,
    ) == s.block_at(r, x) by {
        assert(t.block_at(r, x) == d.block_at(r, x));
        assert(d.block_at(r, x) == c.block_at(r, x));
        assert(c.block_at(r, x) == b.block_at(r, x));
    }
}

proof fn lemma_new_table_frame(s: MachineView)
    ensures
        s.new_table().0.k == (crate::machine::Kernel { mem: s.new_table().0.k.mem, ..s.k }),
{
    reveal(MachineView::new_table);
}

proof fn lemma_free_space(s: MachineView, from: int)
    requires
        0 <= from,
    ensures
        s.k.spaces.free_space(from) matches Some(slot) ==> from <= slot < 8
            && !s.k.spaces.spaces@[slot].active,
    decreases 8 - from,
{
    if from < 8 {
        lemma_free_space(s, from + 1);
    }
}


/// No two tables have the same root.
pub open spec fn roots_differ(s: MachineView) -> bool {
    forall|i: int, j: int|
        0 <= i < j < s.tables.len() ==> (#[trigger] s.tables[i]).root != (
        #[trigger] s.tables[j]).root
}

proof fn lemma_table_goes(s: MachineView, root: u64)
    requires
        roots_differ(s),
        s.table(root) is Some,
    ensures
        ({
            let t = s.drop_table(root).0;
            &&& t.table(root) is None
            &&& forall|r: u64| r != root ==> #[trigger] t.table(r) == s.table(r)
        }),
{
    mmu::lemma_table_of(s.tables, root, 0);
    let i = mmu::table_of(s.tables, root, 0)->0;
    let t = s.drop_table(root).0;
    assert(t.tables == s.tables.remove(i));
    mmu::lemma_table_of(t.tables, root, 0);
    if let Some(j) = mmu::table_of(t.tables, root, 0) {
        if j < i {
            assert(t.tables[j] == s.tables[j]);
        } else {
            assert(t.tables[j] == s.tables[j + 1]);
        }
    }
    assert forall|r: u64| r != root implies #[trigger] t.table(r) == s.table(r) by {
        mmu::lemma_table_of(s.tables, r, 0);
        mmu::lemma_table_of(t.tables, r, 0);
        if let Some(j) = mmu::table_of(s.tables, r, 0) {
            let k = if j < i {
                j
            } else {
                j - 1
            };
            assert(t.tables[k] == s.tables[j]);
        }
        if let Some(k) = mmu::table_of(t.tables, r, 0) {
            let j = if k < i {
                k
            } else {
                k + 1
            };
            assert(s.tables[j] == t.tables[k]);
            let first = mmu::table_of(s.tables, r, 0)->0;
            if first < j {
                assert(s.tables[first].root != s.tables[j].root);
            }
        }
    }
}

/// An address space that its maker destroys is gone with its table, and its handle leads nowhere;
/// the first one cannot be destroyed, nor one that has threads or mappings. Every other space and
/// its translations are as they were.
pub proof fn law_destroyed_space_is_gone(s: MachineView, cx: Entry, frame: TrapFrame)
    requires
        asks(s, cx, frame, abi::SYS_VSPACE_DESTROY),
        roots_differ(s),
        s.k.spaces.find_for(s.k.task.owner(), frame.x@[0]) is Ok,
        s.table(
            s.k.spaces.spaces@[s.k.spaces.find_for(
                s.k.task.owner(),
                frame.x@[0],
            )->Ok_0].root_pa,
        ) is Some,
    ensures
        ({
            let slot = s.k.spaces.find_for(s.k.task.owner(), frame.x@[0])->Ok_0;
            let entry = s.k.spaces.spaces@[slot];
            let (t, result, next) = s.svc_frame(cx, frame);
            if slot == 0 {
                &&& t == s
                &&& results_in(frame, result, abi::SYS_ERR_DENIED)
                &&& next == Dispatch::Return
            } else if entry.active_thread_count != 0 || entry.mapping_count != 0 {
                &&& t == s
                &&& results_in(frame, result, abi::SYS_ERR_BUSY)
                &&& next == Dispatch::Return
            } else {
                &&& next == Dispatch::Return || next == Dispatch::Halt
                &&& next == Dispatch::Return ==> {
                    &&& results_in(frame, result, 0)
                    &&& !t.k.spaces.spaces@[slot].active
                    &&& t.k.spaces.find(frame.x@[0]) is Err
                    &&& t.table(entry.root_pa) is None
                    &&& forall|r: u64, a: int|
                        r != entry.root_pa ==> #[trigger] t.page_at(r, a) == s.page_at(r, a)
                    &&& forall|i: int|
                        0 <= i < 8 && i != slot ==> #[trigger] t.k.spaces.spaces@[i]
                            == s.k.spaces.spaces@[i]
                }
            }
        }),
{
    let slot = s.k.spaces.find_for(s.k.task.owner(), frame.x@[0])->Ok_0;
    let entry = s.k.spaces.spaces@[slot];
    assert(crate::handle::generation_ok(entry.generation));
    crate::handle::law_generation_moves(entry.generation);
    lemma_table_goes(s, entry.root_pa);
    let (t, result, next) = s.svc_frame(cx, frame);
    let d = s.drop_table(entry.root_pa).0;
    if next == Dispatch::Return && t != s {
        assert(t.tables == d.tables);
        assert(t.table(entry.root_pa) == d.table(entry.root_pa));
        assert forall|r: u64, a: int| r != entry.root_pa implies #[trigger] t.page_at(r, a)
            == s.page_at(r, a) by {
            assert(t.table(r) == d.table(r));
            assert(d.table(r) == s.table(r));
        }
    }
}

/// The kernel's first address space maps the first 6 GiB to themselves for the kernel alone, but
/// for the user window; EL0 can reach nothing in it, and the processor uses it.
pub proof fn law_kernel_maps_memory_to_itself(s: MachineView, a: int)
    requires
        s.paging_ok(),
        s.map_kernel().1 is Ok,
        s.table(s.map_kernel().1->Ok_0) is None,
        0 <= a < 0x80_0000_0000,
    ensures
        ({
            let (t, r) = s.map_kernel();
            let root = r->Ok_0;
            &&& t.k.active_table == root
            &&& t.ops.len() > 0
            &&& t.ops.last() == (crate::hw::HwOp::SwitchTable { root, asid: 0 })
            &&& if a < 0x1_8000_0000 && !(abi::USER_BASE <= a < abi::USER_WINDOW_END) {
                kernel_only(t, root, a, access::CACHED)
            } else {
                t.page_at(root, a) is None && t.block_at(root, a) is None
            }
        }),
{
    let (t, r) = s.map_kernel();
    let root = r->Ok_0;
    mmu::law_new_table_is_empty(s);
    let b = s.new_table().0;
    mmu::lemma_kernel_presets();
    crate::util::lemma_round_up(0x1_8000_0000, 0x20_0000);
    assert(mmu::blocks_in(0, 0x1_8000_0000) == 0xc00);
    let low = abi::USER_BASE as int;
    let high = abi::USER_WINDOW_END as int;
    mmu::law_map_blocks(b, root, 0, mmu::MMU_KERNEL, low, high, 0xc00);
    let c = b.map_blocks(root, 0, mmu::MMU_KERNEL, low, high, 0xc00).0;
    assert(t.tables == c.tables);
    assert(t.page_at(root, a) == c.page_at(root, a));
    assert(t.block_at(root, a) == c.block_at(root, a));
    assert(b.block_at(root, a) is None && b.page_at(root, a) is None);
    mmu::law_kernel_blocks_mean(block_of(a) as u64);
}

} // verus!
