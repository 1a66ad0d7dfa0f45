//! No frame is writable and executable at once, and every frame counts its mappings, whatever
//! call is made; so too when all mappings of an owner go at once.
use crate::abi;
use crate::laws::stillness::{self, still};
use crate::machine::{Entry, MachineView};
use crate::memory::frame::{self, FrameEntry};
use crate::memory::mmu;
use crate::memory::vspace::{self, MappingEntry, VSpaces};
use crate::object::task::TaskResources;
use crate::object::thread;
use crate::syscall::dispatch::{self, TrapFrame};
use vstd::prelude::*;

verus! {

/// The state in which the mappings of `owner` are off the list, but still in tables and counts.
spec fn unlisted(s: MachineView, owner: u32) -> MachineView {
    s.with_spaces(
        VSpaces {
            mappings: crate::util::mapped(
                s.k.spaces.mappings,
                vspace::drop_mapping(owner),
                128,
            ),
            ..s.k.spaces
        },
    )
}

/// Number of the first `k` mappings that map the frame named by `handle`.
spec fn hits(taken: Seq<MappingEntry>, handle: u64, k: int) -> int
    decreases k,
{
    if k <= 0 {
        0
    } else {
        hits(taken, handle, k - 1) + if taken[k - 1].frame_handle == handle {
            1int
        } else {
            0
        }
    }
}

proof fn lemma_undo_list(s: MachineView, owner: u32, taken: Seq<MappingEntry>, k: int)
    requires
        0 <= k <= taken.len(),
    ensures
        s.undo_mappings(owner, taken, k).k.spaces.mappings == s.k.spaces.mappings,
    decreases k,
{
    if k > 0 {
        lemma_undo_list(s, owner, taken, k - 1);
        let t = s.undo_mappings(owner, taken, k - 1);
        let entry = taken[k - 1];
        vspace::lemma_unmap_run_frame(t, entry.target_root, entry.va as int, entry.pages as int);
    }
}

/// What is on the list of mappings after all those of `owner` went.
proof fn lemma_cleanup_list(s: MachineView, owner: u32)
    requires
        owner != 0,
    ensures
        ({
            let n = s.vspace_cleanup(owner);
            forall|j: int|
                0 <= j < 128 ==> (#[trigger] n.k.spaces.mappings@[j]) == vspace::drop_mapping(
                    owner,
                )(s.k.spaces.mappings@[j])
        }),
{
    let taken = vspace::mappings_of(s.k.spaces.mappings, owner, 128);
    lemma_undo_list(unlisted(s, owner), owner, taken, taken.len() as int);
    crate::util::lemma_mapped(s.k.spaces.mappings, vspace::drop_mapping(owner), 128);
}

/// When all mappings of an owner go, no frame becomes writable and executable at once.
pub proof fn law_cleanup_keeps_wx(s: MachineView, owner: u32)
    requires
        vspace::write_xor_execute(s.k.spaces),
    ensures
        vspace::write_xor_execute(s.vspace_cleanup(owner).k.spaces),
{
    if owner != 0 {
        lemma_cleanup_list(s, owner);
        let n = s.vspace_cleanup(owner);
        assert forall|i: int| 0 <= i < 128 implies (#[trigger] n.k.spaces.mappings@[i])
            == s.k.spaces.mappings@[i] || n.k.spaces.mappings@[i].owner == 0 by {}
    }
}

/// Each of the owner's mappings is taken, and only those.
proof fn lemma_taken(mappings: [MappingEntry; 128], owner: u32, handle: u64, k: int)
    requires
        0 <= k <= 128,
        owner != 0,
        forall|j: int|
            0 <= j < 128 && (#[trigger] mappings@[j]).owner != 0 && mappings@[j].frame_handle
                == handle ==> mappings@[j].owner == owner,
    ensures
        ({
            let taken = vspace::mappings_of(mappings, owner, k);
            hits(taken, handle, taken.len() as int) == vspace::mappings_to(mappings, handle, k)
        }),
    decreases k,
{
    if k > 0 {
        lemma_taken(mappings, owner, handle, k - 1);
        let before = vspace::mappings_of(mappings, owner, k - 1);
        if mappings@[k - 1].owner == owner {
            lemma_hits_prefix(
                before,
                before.push(mappings@[k - 1]),
                handle,
                before.len() as int,
            );
        }
    }
}

proof fn lemma_hits_prefix(a: Seq<MappingEntry>, b: Seq<MappingEntry>, handle: u64, k: int)
    requires
        k <= a.len(),
        k <= b.len(),
        forall|j: int| 0 <= j < k ==> a[j] == b[j],
    ensures
        hits(a, handle, k) == hits(b, handle, k),
    decreases k,
{
    if k > 0 {
        lemma_hits_prefix(a, b, handle, k - 1);
    }
}

proof fn lemma_hits_bound(taken: Seq<MappingEntry>, handle: u64, k: int, n: int)
    requires
        0 <= k <= n <= taken.len(),
    ensures
        0 <= hits(taken, handle, k) <= hits(taken, handle, n),
    decreases n,
{
    if k < n {
        lemma_hits_bound(taken, handle, k, n - 1);
    } else if k > 0 {
        lemma_hits_bound(taken, handle, k - 1, k - 1);
    }
}

proof fn lemma_taken_is_listed(mappings: [MappingEntry; 128], owner: u32, k: int, i: int)
    requires
        0 <= k <= 128,
        0 <= i < vspace::mappings_of(mappings, owner, k).len(),
    ensures
        exists|j: int|
            0 <= j < k && (#[trigger] mappings@[j]).owner == owner && mappings@[j]
                == vspace::mappings_of(mappings, owner, k)[i],
    decreases k,
{
    if k > 0 {
        let before = vspace::mappings_of(mappings, owner, k - 1);
        if i < before.len() {
            lemma_taken_is_listed(mappings, owner, k - 1, i);
            let j = choose|j: int|
                0 <= j < k - 1 && (#[trigger] mappings@[j]).owner == owner && mappings@[j]
                    == before[i];
            assert(mappings@[j].owner == owner);
        } else {
            assert(mappings@[k - 1].owner == owner);
        }
    }
}

spec fn handle_at(frames: [FrameEntry; 64], i: int) -> u64 {
    crate::handle::handle_of(i, frames@[i].generation) as u64
}

/// The counts after `k` of the taken mappings were undone.
spec fn counts_undone(
    a: [FrameEntry; 64],
    b: [FrameEntry; 64],
    owner: u32,
    taken: Seq<MappingEntry>,
    k: int,
) -> bool {
    forall|i: int|
        0 <= i < 64 ==> (#[trigger] b@[i]) == (FrameEntry {
            mapping_count: if a@[i].owner == owner {
                (a@[i].mapping_count - hits(taken, handle_at(a, i), k)) as u32
            } else {
                a@[i].mapping_count
            },
            ..a@[i]
        })
}

#[verifier::spinoff_prover]
proof fn lemma_undo_counts(s: MachineView, owner: u32, taken: Seq<MappingEntry>, k: int)
    requires
        0 <= k <= taken.len(),
        owner != 0,
        frame::frames_ok(s.k.frames),
        forall|j: int|
            0 <= j < taken.len() ==> frame::entry_of(
                s.k.frames,
                owner,
                (#[trigger] taken[j]).frame_handle,
            ) is Ok,
        forall|i: int|
            0 <= i < 64 && (#[trigger] s.k.frames@[i]).owner == owner ==> hits(
                taken,
                handle_at(s.k.frames, i),
                taken.len() as int,
            ) <= s.k.frames@[i].mapping_count,
    ensures
        counts_undone(
            s.k.frames,
            s.undo_mappings(owner, taken, k).k.frames,
            owner,
            taken,
            k,
        ),
    decreases k,
{
    let a = s.k.frames;
    if k > 0 {
        lemma_undo_counts(s, owner, taken, k - 1);
        let t = s.undo_mappings(owner, taken, k - 1);
        let entry = taken[k - 1];
        vspace::lemma_unmap_run_frame(t, entry.target_root, entry.va as int, entry.pages as int);
        let u = s.undo_mappings(owner, taken, k);
        assert(frame::entry_of(a, owner, entry.frame_handle) is Ok);
        vspace::lemma_resolved_handle(a, owner, entry.frame_handle);
        let slot = frame::entry_of(a, owner, entry.frame_handle)->Ok_0;
        assert(handle_at(a, slot) == entry.frame_handle);
        let b = t.k.frames;
        assert(b@[slot] == (FrameEntry {
            mapping_count: (a@[slot].mapping_count - hits(taken, handle_at(a, slot), k - 1))
                as u32,
            ..a@[slot]
        }));
        lemma_hits_bound(taken, handle_at(a, slot), k, taken.len() as int);
        lemma_hits_bound(taken, handle_at(a, slot), k - 1, k);
        assert(a@[slot].owner == owner);
        assert(frame::entry_of(b, owner, entry.frame_handle) == Ok::<int, u64>(slot));
        assert forall|i: int| 0 <= i < 64 implies (#[trigger] u.k.frames@[i]) == (FrameEntry {
            mapping_count: if a@[i].owner == owner {
                (a@[i].mapping_count - hits(taken, handle_at(a, i), k)) as u32
            } else {
                a@[i].mapping_count
            },
            ..a@[i]
        }) by {
            assert(b@[i] == (FrameEntry {
                mapping_count: if a@[i].owner == owner {
                    (a@[i].mapping_count - hits(taken, handle_at(a, i), k - 1)) as u32
                } else {
                    a@[i].mapping_count
                },
                ..a@[i]
            }));
            assert(a@[i].wf() && a@[slot].wf());
            crate::handle::law_handle_round_trip(i, a@[i].generation, 64);
            crate::handle::law_handle_round_trip(slot, a@[slot].generation, 64);
            if i != slot && handle_at(a, i) == entry.frame_handle {
                crate::handle::law_handle_injective(
                    i,
                    a@[i].generation,
                    slot,
                    a@[slot].generation,
                );
            }
        }
    } else {
        assert forall|i: int| 0 <= i < 64 implies (#[trigger] a@[i]) == (FrameEntry {
            mapping_count: if a@[i].owner == owner {
                (a@[i].mapping_count - hits(taken, handle_at(a, i), k)) as u32
            } else {
                a@[i].mapping_count
            },
            ..a@[i]
        }) by {}
    }
}

proof fn lemma_same_count(a: [MappingEntry; 128], b: [MappingEntry; 128], handle: u64, k: int)
    requires
        0 <= k <= 128,
        forall|j: int|
            0 <= j < 128 ==> ((#[trigger] a@[j]).owner != 0 && a@[j].frame_handle == handle) == (
            b@[j].owner != 0 && b@[j].frame_handle == handle),
    ensures
        vspace::mappings_to(a, handle, k) == vspace::mappings_to(b, handle, k),
    decreases k,
{
    if k > 0 {
        lemma_same_count(a, b, handle, k - 1);
        assert((a@[k - 1].owner != 0 && a@[k - 1].frame_handle == handle) == (b@[k - 1].owner != 0
            && b@[k - 1].frame_handle == handle));
    }
}

/// When all mappings of an owner go, the counts stay exact: those of the owner's frames are zero,
/// those of all others as before.
#[verifier::spinoff_prover]
pub proof fn law_cleanup_keeps_counts(s: MachineView, owner: u32)
    requires
        frame::frames_ok(s.k.frames),
        vspace::mappings_counted(s.k),
    ensures
        vspace::mappings_counted(s.vspace_cleanup(owner).k),
        owner != 0 ==> forall|i: int|
            0 <= i < 64 && (#[trigger] s.k.frames@[i]).owner == owner ==> s.vspace_cleanup(
                owner,
            ).k.frames@[i].mapping_count == 0,
{
    if owner != 0 {
        let frames = s.k.frames;
        let list = s.k.spaces.mappings;
        let n = s.vspace_cleanup(owner);
        let taken = vspace::mappings_of(list, owner, 128);
        let start = unlisted(s, owner);
        lemma_cleanup_list(s, owner);
        // A mapping of a frame belongs to the frame's owner.
        assert forall|i: int, j: int|
            0 <= i < 64 && frames@[i].owner != 0 && 0 <= j < 128 && list@[j].owner != 0
                && list@[j].frame_handle == #[trigger] handle_at(
                frames,
                i,
            ) implies (#[trigger] list@[j]).owner == frames@[i].owner by {
            assert(frame::entry_of(frames, list@[j].owner, list@[j].frame_handle) is Ok);
            assert(frames@[i].wf());
            crate::handle::law_handle_round_trip(i, frames@[i].generation, 64);
        }
        assert forall|j: int| 0 <= j < taken.len() implies frame::entry_of(
            frames,
            owner,
            (#[trigger] taken[j]).frame_handle,
        ) is Ok by {
            lemma_taken_is_listed(list, owner, 128, j);
            let at = choose|at: int|
                0 <= at < 128 && (#[trigger] list@[at]).owner == owner && list@[at] == taken[j];
            assert(frame::entry_of(frames, list@[at].owner, list@[at].frame_handle) is Ok);
        }
        assert forall|i: int| 0 <= i < 64 && (#[trigger] frames@[i]).owner == owner implies hits(
            taken,
            handle_at(frames, i),
            taken.len() as int,
        ) == frames@[i].mapping_count by {
            lemma_taken(list, owner, handle_at(frames, i), 128);
        }
        lemma_undo_counts(start, owner, taken, taken.len() as int);
        assert(start.k.frames == frames);
        assert forall|i: int| 0 <= i < 64 implies (#[trigger] n.k.frames@[i]) == (FrameEntry {
            mapping_count: if frames@[i].owner == owner {
                0
            } else {
                frames@[i].mapping_count
            },
            ..frames@[i]
        }) by {
            if frames@[i].owner == owner {
                assert(hits(taken, handle_at(frames, i), taken.len() as int)
                    == frames@[i].mapping_count);
            }
        }
        assert forall|i: int| 0 <= i < 64 && (#[trigger] n.k.frames@[i]).owner
            != 0 implies n.k.frames@[i].mapping_count == vspace::mappings_to(
            n.k.spaces.mappings,
            crate::handle::handle_of(i, n.k.frames@[i].generation) as u64,
            128,
        ) by {
            let handle = handle_at(frames, i);
            if frames@[i].owner == owner {
                assert forall|j: int| 0 <= j < 128 implies !((
                #[trigger] n.k.spaces.mappings@[j]).owner != 0
                    && n.k.spaces.mappings@[j].frame_handle == handle) by {
                    assert(n.k.spaces.mappings@[j] == vspace::drop_mapping(owner)(list@[j]));
                    if list@[j].owner != 0 && list@[j].frame_handle == handle_at(frames, i) {
                        assert(list@[j].owner == frames@[i].owner);
                    }
                }
                vspace::lemma_mappings_to(n.k.spaces.mappings, handle, 128);
            } else {
                assert forall|j: int| 0 <= j < 128 implies ((#[trigger] list@[j]).owner != 0
                    && list@[j].frame_handle == handle) == (n.k.spaces.mappings@[j].owner != 0
                    && n.k.spaces.mappings@[j].frame_handle == handle) by {
                    assert(n.k.spaces.mappings@[j] == vspace::drop_mapping(owner)(list@[j]));
                    if list@[j].owner != 0 && list@[j].frame_handle == handle_at(frames, i) {
                        assert(list@[j].owner == frames@[i].owner);
                    }
                }
                lemma_same_count(list, n.k.spaces.mappings, handle, 128);
            }
        }
        assert forall|j: int| 0 <= j < 128 && (#[trigger] n.k.spaces.mappings@[j]).owner
            != 0 implies frame::entry_of(
            n.k.frames,
            n.k.spaces.mappings@[j].owner,
            n.k.spaces.mappings@[j].frame_handle,
        ) is Ok by {
            assert(n.k.spaces.mappings@[j] == vspace::drop_mapping(owner)(list@[j]));
            assert(frame::entry_of(frames, list@[j].owner, list@[j].frame_handle) is Ok);
        }
    }
}

/// Before any frame is made, no frame is writable and executable, and every frame counts its
/// mappings.
pub proof fn law_no_frames_are_counted(s: MachineView)
    requires
        forall|i: int| 0 <= i < 64 ==> (#[trigger] s.k.frames@[i]).owner == 0,
        forall|j: int| 0 <= j < 128 ==> (#[trigger] s.k.spaces.mappings@[j]).owner == 0,
    ensures
        vspace::write_xor_execute(s.k.spaces),
        vspace::mappings_counted(s.k),
{
}

/// Frames and mappings are as they were.
spec fn unmoved(s: MachineView, n: MachineView) -> bool {
    n.k.frames == s.k.frames && n.k.spaces.mappings == s.k.spaces.mappings
}

proof fn lemma_drop_unmoved(s: MachineView, root: u64, va: int, pa: u64, pages: u64)
    ensures
        unmoved(s, s.drop_pages(root, va, pa, pages).0),
        s.drop_pages(root, va, pa, pages).0.k.threads == s.k.threads,
{
    vspace::lemma_unmap_run_frame(s, root, va, pages as int);
}

#[verifier::spinoff_prover]
proof fn lemma_thread_create_unmoved(
    s: MachineView,
    cx: Entry,
    slot: int,
    stack_pa: u64,
    ipc_pa: u64,
    entry: u64,
    arg: u64,
    cpu: u64,
    urgency: u64,
    mcp: u64,
)
    requires
        0 <= slot < 16,
    ensures
        unmoved(
            s,
            s.thread_create_mapped(
                cx,
                slot,
                stack_pa,
                ipc_pa,
                entry,
                arg,
                cpu,
                urgency,
                mcp,
            ).0,
        ),
{
    let root = s.k.active_table;
    let stack_va = thread::stack_base_of(slot);
    let ipc_va = thread::ipc_va_of(slot);
    vspace::lemma_map_checked_frame(s, root, stack_va, stack_pa as int, mmu::MMU_USER_RW, 64);
    let t = s.map_checked(root, stack_va, stack_pa as int, mmu::MMU_USER_RW, 64).0;
    vspace::lemma_map_checked_frame(t, root, ipc_va, ipc_pa as int, mmu::MMU_USER_RW, 1);
    let u = t.map_checked(root, ipc_va, ipc_pa as int, mmu::MMU_USER_RW, 1).0;
    vspace::lemma_unmap_run_frame(u, root, stack_va, 64);
    vspace::lemma_unmap_run_frame(u.unmap_run(root, stack_va, 64).0, root, ipc_va, 1);
}

#[verifier::spinoff_prover]
proof fn lemma_thread_exit_unmoved(s: MachineView, cx: Entry, frame: TrapFrame)
    requires
        s.wf(),
        s.k.threads.runs(cx.cpu as int),
    ensures
        unmoved(s, s.thread_exit(cx, frame).0),
{
    let slot = s.k.threads.current@[cx.cpu as int] as int;
    let saved = s.save_current(cx.cpu as int, frame);
    assert(still(s, saved));
    stillness::lemma_cancel(saved, cx, slot);
    let t = saved.cancel_thread(cx, slot);
    let thread = t.k.threads.slots@[slot];
    let root = thread.vspace_root;
    let pages: u64 = if thread.ipc_pa != 0 {
        1
    } else {
        0
    };
    lemma_drop_unmoved(t, root, thread.stack_va as int, thread.stack_pa, thread.stack_pages);
    let u = t.drop_pages(root, thread.stack_va as int, thread.stack_pa, thread.stack_pages).0;
    lemma_drop_unmoved(u, root, thread.ipc_va as int, thread.ipc_pa, pages);
    let v = u.drop_ipc(root, thread).0;
    let w = v.with_spaces(v.k.spaces.thread_removed(thread.vspace_handle)).op(
        crate::hw::HwOp::FlushTlb,
    );
    let x = w.with_threads(
        w.k.threads.with(
            slot,
            thread::Thread {
                base_priority: thread.base_priority,
                effective_priority: thread.effective_priority,
                ready_sequence: thread.ready_sequence,
                runtime_ticks: thread.runtime_ticks,
                ..thread::Thread::empty(
                    crate::handle::generation_after(thread.generation),
                    thread::ThreadState::Exited,
                )
            },
        ),
    );
    stillness::lemma_after_block(x, cx);
}

#[verifier::spinoff_prover]
proof fn lemma_create_unmoved(
    s: MachineView,
    cx: Entry,
    entry: u64,
    arg: u64,
    cpu: u64,
    urgency: u64,
    mcp: u64,
)
    ensures
        unmoved(s, s.thread_create(cx, entry, arg, cpu, urgency, mcp).0),
{
    if let Some(slot) = s.k.threads.free_slot(1) {
        crate::laws::scheduling::lemma_free_slot(s.k.threads, 1);
        let (mem, stack) = s.k.mem.pages_alloc(64);
        let t = s.with_mem(mem);
        let (mem2, page) = t.k.mem.page_alloc();
        match (stack, page) {
            (Some(stack_pa), Some(ipc_pa)) => {
                lemma_thread_create_unmoved(
                    t.with_mem(mem2).op(
                        crate::hw::HwOp::Zero { pa: stack_pa, bytes: 0x4_0000 },
                    ).op(crate::hw::HwOp::Zero { pa: ipc_pa, bytes: 4096 }),
                    cx,
                    slot,
                    stack_pa,
                    ipc_pa,
                    entry,
                    arg,
                    cpu,
                    urgency,
                    mcp,
                );
            },
            _ => {},
        }
    }
}

#[verifier::spinoff_prover]
proof fn lemma_thread_calls(s: MachineView, cx: Entry, frame: TrapFrame)
    requires
        s.wf(),
        s.k.threads.runs(cx.cpu as int),
    ensures
        unmoved(s, s.thread_svc(cx, frame).0),
{
    let sysno = frame.x@[8];
    let a = frame.x@[0];
    let b = frame.x@[1];
    if sysno == abi::SYS_THREAD_CREATE {
        lemma_create_unmoved(s, cx, a, b, frame.x@[2], frame.x@[3], frame.x@[4]);
    } else if sysno == abi::SYS_THREAD_EXIT {
        lemma_thread_exit_unmoved(s, cx, frame);
    } else if sysno == abi::SYS_THREAD_YIELD {
        stillness::lemma_yield(s, cx, frame.with_result(0));
    } else if sysno == abi::SYS_THREAD_SET_PRIORITY {
        stillness::lemma_set_priority(s, cx, a, b);
    }
}

/// Calls that neither map nor unmap a frame.
#[verifier::spinoff_prover]
proof fn lemma_builder_calls(s: MachineView, cx: Entry, frame: TrapFrame)
    requires
        frame.x@[8] != abi::SYS_FRAME_MAP_TO,
    ensures
        unmoved(s, s.builder_svc(cx, frame).0),
{
    reveal(MachineView::new_table);
    let sysno = frame.x@[8];
    let a = frame.x@[0];
    let b = frame.x@[1];
    let owner = s.k.task.owner();
    if sysno == abi::SYS_VSPACE_CREATE {
        let (t, table) = s.new_table();
        if let Some(root) = table {
            vspace::lemma_map_blocks_frame(
                t,
                root,
                0,
                mmu::MMU_KERNEL,
                abi::USER_BASE as int,
                abi::USER_WINDOW_END as int,
                0xc00,
            );
            let u = t.map_blocks(
                root,
                0,
                mmu::MMU_KERNEL,
                abi::USER_BASE as int,
                abi::USER_WINDOW_END as int,
                0xc00,
            ).0;
            crate::laws::calls::lemma_map_devices_frame(
                u,
                root,
                u.k.spaces.device_count as int,
            );
        }
    } else if sysno == abi::SYS_THREAD_CREATE_IN {
        let (mem, page) = s.k.mem.page_alloc();
        match (s.k.spaces.find_for(owner, a), s.k.threads.free_slot(1), page) {
            (Ok(space), Some(slot), Some(ipc_pa)) => {
                let t = s.with_mem(mem).op(crate::hw::HwOp::Zero { pa: ipc_pa, bytes: 4096 });
                let root = t.k.spaces.spaces@[space].root_pa;
                let ipc_va = thread::ipc_va_of(slot);
                vspace::lemma_map_checked_frame(
                    t,
                    root,
                    ipc_va,
                    ipc_pa as int,
                    mmu::MMU_USER_RW,
                    1,
                );
                let u = t.map_checked(root, ipc_va, ipc_pa as int, mmu::MMU_USER_RW, 1).0;
                vspace::lemma_unmap_run_frame(u, root, ipc_va, 1);
            },
            _ => {},
        }
    } else if sysno == abi::SYS_THREAD_START || sysno == abi::SYS_THREAD_SUSPEND {
        stillness::lemma_control(s, cx, a);
    } else if sysno != abi::SYS_VSPACE_DESTROY {
        if let Ok(slot) = s.k.threads.resolve_control(owner, a) {
            let thread = s.k.threads.slots@[slot];
            lemma_drop_unmoved(
                s,
                thread.vspace_root,
                thread.ipc_va as int,
                thread.ipc_pa,
                if thread.ipc_pa != 0 {
                    1
                } else {
                    0
                },
            );
        }
    }
}

/// Calls on devices, interrupts and the console leave frames and mappings alone.
#[verifier::spinoff_prover]
proof fn lemma_plain_calls(s: MachineView, cx: Entry, frame: TrapFrame)
    requires
        frame.x@[8] != abi::SYS_FRAME_ALLOC,
        frame.x@[8] != abi::SYS_FRAME_FREE,
        frame.x@[8] != abi::SYS_FRAME_MAP,
        frame.x@[8] != abi::SYS_FRAME_UNMAP,
    ensures
        unmoved(
            s,
            s.svc(
                cx,
                frame.x@[8],
                frame.x@[0],
                frame.x@[1],
                frame.x@[2],
                frame.x@[3],
                frame.x@[4],
            ).0,
        ),
{
    let sysno = frame.x@[8];
    let (a, b, c) = (frame.x@[0], frame.x@[1], frame.x@[2]);
    if sysno == abi::SYS_MAP_MMIO && dispatch::rounded(b) is Some {
        dispatch::lemma_map_run_frame(
            s,
            s.k.active_table,
            c as int,
            a as int,
            mmu::MMU_USER_DEV,
            dispatch::rounded(b)->0 / 4096,
        );
    } else if sysno == abi::SYS_UNMAP_MMIO && dispatch::rounded(b) is Some {
        let pages = dispatch::rounded(b)->0 / 4096;
        if let Some(i) = s.k.task.mmio_at(a, pages as u64, 0) {
            vspace::lemma_unmap_run_frame(
                s.with_task(s.k.task.without_mmio(i)),
                s.k.active_table,
                a as int,
                pages,
            );
        }
    } else if sysno == abi::SYS_DMA_ALLOC && dispatch::rounded(a) is Some {
        let bytes = dispatch::rounded(a)->0;
        let pages = bytes / 4096;
        let (mem, got) = s.k.mem.aligned_alloc(pages as u64, dispatch::dma_align_pages(b));
        if let Some(pa) = got {
            let t = s.with_mem(mem).op(crate::hw::HwOp::Zero { pa, bytes: bytes as u64 });
            dispatch::lemma_map_run_frame(
                t.with_task(t.k.task.with_dma(c, pa, pages as u64)),
                t.k.active_table,
                c as int,
                pa as int,
                mmu::MMU_USER_DMA,
                pages,
            );
        }
    } else if sysno == abi::SYS_DMA_FREE && dispatch::rounded(b) is Some {
        let pages = dispatch::rounded(b)->0 / 4096;
        if let Some(i) = s.k.task.dma_at(a, pages as u64, 0) {
            vspace::lemma_unmap_run_frame(
                s.with_task(s.k.task.without_dma(i)),
                s.k.active_table,
                a as int,
                pages,
            );
        }
    }
}

/// Whatever system call a thread of the task makes, no frame becomes writable and executable at
/// once, and every frame counts exactly its mappings.
#[verifier::spinoff_prover]
pub proof fn law_calls_keep_mappings(s: MachineView, cx: Entry, frame: TrapFrame)
    requires
        s.wf(),
        s.k.task.active,
        s.k.threads.runs(cx.cpu as int),
        vspace::write_xor_execute(s.k.spaces),
        vspace::mappings_counted(s.k),
    ensures
        vspace::write_xor_execute(s.svc_frame(cx, frame).0.k.spaces),
        vspace::mappings_counted(s.svc_frame(cx, frame).0.k),
{
    let sysno = frame.x@[8];
    let n = s.svc_frame(cx, frame).0;
    let owner = s.k.task.owner();
    let (a, b, c) = (frame.x@[0], frame.x@[1], frame.x@[2]);
    let (d, e) = (frame.x@[3], frame.x@[4]);
    if sysno == abi::SYS_FRAME_ALLOC {
        vspace::law_allocate_keeps_counts(s, owner, a, b);
    } else if sysno == abi::SYS_FRAME_FREE {
        vspace::law_free_keeps_counts(s, owner, a);
    } else if sysno == abi::SYS_FRAME_MAP {
        let space = s.k.spaces.handle_on(cx.cpu);
        vspace::law_map_frame_keeps_counts(s, owner, space, a, b, c, d, e, true);
        vspace::law_map_frame_keeps_wx(s, owner, space, a, b, c, d, e, true);
    } else if sysno == abi::SYS_FRAME_MAP_TO {
        vspace::law_map_frame_keeps_counts(s, owner, a, b, c, d, e, frame.x@[5], false);
        vspace::law_map_frame_keeps_wx(s, owner, a, b, c, d, e, frame.x@[5], false);
    } else if sysno == abi::SYS_FRAME_UNMAP {
        vspace::law_unmap_keeps_counts(s, owner, a);
        vspace::law_unmap_keeps_wx(s, owner, a);
    } else {
        if dispatch::is_endpoint_call(sysno) {
            stillness::lemma_endpoint_calls(s, cx, frame);
        } else if dispatch::is_notification_call(sysno) {
            stillness::lemma_notification_calls(s, cx, frame);
        } else if dispatch::is_thread_call(sysno) {
            lemma_thread_calls(s, cx, frame);
        } else if dispatch::is_builder_call(sysno) {
            lemma_builder_calls(s, cx, frame);
        } else {
            lemma_plain_calls(s, cx, frame);
        }
        assert(unmoved(s, n));
    }
}

/// Whatever interrupt comes in, no frame becomes writable and executable at once, and every frame
/// counts exactly its mappings.
#[verifier::spinoff_prover]
pub proof fn law_interrupts_keep_mappings(s: MachineView, cx: Entry, raw: u32, frame: TrapFrame)
    requires
        frame.spsr_el1 % 16 == 0 ==> s.k.threads.runs(cx.cpu as int),
        vspace::write_xor_execute(s.k.spaces),
        vspace::mappings_counted(s.k),
    ensures
        vspace::write_xor_execute(s.irq(cx, raw, frame).0.k.spaces),
        vspace::mappings_counted(s.irq(cx, raw, frame).0.k),
{
    let line = raw % 1024;
    let ended = s.with_ops(s.k.gic.eoir_ops(raw));
    if !s.k.gic.is_ready() || line >= 1020 {
    } else if line == crate::interrupt::gic::SGI_RESCHEDULE {
        lemma_look_again(ended, cx, frame);
    } else if line == crate::interrupt::gic::SGI_TLB_SHOOTDOWN {
    } else if line == crate::interrupt::gic::SGI_TASK_STOP {
    } else if s.k.timer.intid != 0 && s.k.timer.intid == line {
        if frame.spsr_el1 % 16 == 0 {
            let halted = s.disarm().with_ops(s.k.gic.eoir_ops(raw));
            stillness::lemma_yield(halted, cx, frame);
        }
    } else if let Some(i) = s.k.task.binding(line, 0) {
        let binding = s.k.task.irq_bindings@[i];
        let quiet = s.with_ops(s.k.gic.disable_ops(raw % 1024)).with_ops(s.k.gic.eoir_ops(raw));
        let t = quiet.with_task(quiet.k.task.with_awaiting(i, true));
        stillness::lemma_signal(t, cx, binding.notification, binding.badge);
        lemma_look_again(t.signal(cx, binding.notification, binding.badge).0, cx, frame);
    }
    assert(unmoved(s, s.irq(cx, raw, frame).0));
}

proof fn lemma_look_again(s: MachineView, cx: Entry, frame: TrapFrame)
    requires
        frame.spsr_el1 % 16 == 0 ==> s.k.threads.runs(cx.cpu as int),
    ensures
        unmoved(s, s.look_again(cx, frame).0),
{
    if frame.spsr_el1 % 16 == 0 {
        stillness::lemma_preempt(s, cx, frame);
    } else {
        stillness::lemma_choice(s, cx);
    }
}

proof fn lemma_cleanup_slots(s: MachineView, root: u64, k: int)
    requires
        0 <= k <= 16,
    ensures
        unmoved(s, s.cleanup_slots(root, k).0),
    decreases k,
{
    if k > 0 {
        lemma_cleanup_slots(s, root, k - 1);
        let t = s.cleanup_slots(root, k - 1).0;
        let thread = t.k.threads.slots@[k - 1];
        let table = if thread.vspace_root > root {
            thread.vspace_root
        } else {
            root
        };
        let pages: u64 = if thread.ipc_pa != 0 {
            1
        } else {
            0
        };
        lemma_drop_unmoved(t, table, thread.stack_va as int, thread.stack_pa, thread.stack_pages);
        let u = t.drop_pages(table, thread.stack_va as int, thread.stack_pa, thread.stack_pages).0;
        lemma_drop_unmoved(u, table, thread.ipc_va as int, thread.ipc_pa, pages);
    }
}

proof fn lemma_unmap_runs(s: MachineView, root: u64, runs: Seq<(u64, u64)>, k: int)
    ensures
        s.unmap_runs(root, runs, k).k == s.k,
    decreases k,
{
    if k > 0 {
        lemma_unmap_runs(s, root, runs, k - 1);
        vspace::lemma_unmap_run_frame(
            s.unmap_runs(root, runs, k - 1),
            root,
            runs[k - 1].0 as int,
            runs[k - 1].1 as int,
        );
    }
}

/// When the frames of an owner go whose mappings went before, every frame that is left counts its
/// mappings.
proof fn lemma_frames_gone(s: MachineView, owner: u32)
    requires
        owner != 0,
        vspace::mappings_counted(s.k),
        forall|j: int| 0 <= j < 128 ==> (#[trigger] s.k.spaces.mappings@[j]).owner != owner,
    ensures
        vspace::mappings_counted(s.frame_cleanup(owner).0.k),
        s.frame_cleanup(owner).0.k.spaces == s.k.spaces,
{
    let n = s.frame_cleanup(owner).0;
    let f = frame::drop_frame(owner);
    crate::util::lemma_mapped(s.k.frames, f, 64);
    assert forall|i: int| 0 <= i < 64 implies #[trigger] n.k.frames@[i] == f(s.k.frames@[i]) by {}
    assert forall|j: int| 0 <= j < 128 && (#[trigger] n.k.spaces.mappings@[j]).owner
        != 0 implies frame::entry_of(
        n.k.frames,
        n.k.spaces.mappings@[j].owner,
        n.k.spaces.mappings@[j].frame_handle,
    ) is Ok by {
        let entry = s.k.spaces.mappings@[j];
        assert(frame::entry_of(s.k.frames, entry.owner, entry.frame_handle) is Ok);
        let slot = frame::entry_of(s.k.frames, entry.owner, entry.frame_handle)->Ok_0;
        assert(n.k.frames@[slot] == f(s.k.frames@[slot]));
    }
    assert forall|i: int| 0 <= i < 64 && (#[trigger] n.k.frames@[i]).owner
        != 0 implies n.k.frames@[i].mapping_count == vspace::mappings_to(
        n.k.spaces.mappings,
        crate::handle::handle_of(i, n.k.frames@[i].generation) as u64,
        128,
    ) by {
        assert(n.k.frames@[i] == f(s.k.frames@[i]));
        assert(s.k.frames@[i].owner != 0);
    }
}

/// When the task ends, no frame becomes writable and executable at once, and every frame that is
/// left counts exactly its mappings.
#[verifier::spinoff_prover]
pub proof fn law_exit_keeps_mappings(s: MachineView)
    requires
        s.wf(),
        vspace::write_xor_execute(s.k.spaces),
        vspace::mappings_counted(s.k),
        s.task_exit().1 is Ok,
    ensures
        vspace::write_xor_execute(s.task_exit().0.k.spaces),
        vspace::mappings_counted(s.task_exit().0.k),
{
    if s.k.task.active {
        let owner = s.k.task.owner();
        let root = s.k.active_table;
        let quiet = s.with_task(TaskResources { irq_binding_count: 0, ..s.k.task }).with_ops(
            s.k.task.disable_bound(s.k.gic, s.k.task.irq_binding_count as int),
        ).sched_cleanup();
        lemma_cleanup_slots(quiet.with_ipc(quiet.k.ipc.without_owner(owner)), root, 16);
        let stopped = s.task_stopped().0;
        assert(unmoved(s, stopped));
        law_cleanup_keeps_counts(stopped, owner);
        law_cleanup_keeps_wx(stopped, owner);
        let unmapped = stopped.vspace_cleanup(owner);
        let runs = unmapped.k.task.user_runs();
        lemma_unmap_runs(unmapped, root, runs, runs.len() as int);
        let t = unmapped.unmap_runs(root, runs, runs.len() as int).op(crate::hw::HwOp::FlushTlb);
        lemma_cleanup_list(stopped, owner);
        assert forall|j: int| 0 <= j < 128 implies (#[trigger] t.k.spaces.mappings@[j]).owner
            != owner by {
            assert(t.k.spaces.mappings@[j] == vspace::drop_mapping(owner)(
                stopped.k.spaces.mappings@[j],
            ));
        }
        lemma_frames_gone(t, owner);
    }
}

} // verus!
