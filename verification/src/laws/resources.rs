//! What the task may reach, and what comes back when it ends.
use crate::machine::MachineView;
use crate::memory::frame;
use crate::memory::frame::FrameEntry;
use crate::memory::physical::{self, FreeRange, PhysicalMemory};
use crate::memory::vspace;
use crate::object::task::TaskResources;
use crate::object::thread::Thread;
use crate::syscall::dispatch;
use vstd::prelude::*;

verus! {

/// A device range is mapped only if all of it, rounded up to pages, lies in a registered window
/// that nothing denies and in a grant of the task. A refused request changes nothing.
pub proof fn law_mmio_needs_grant(s: MachineView, paddr: u64, size: u64, user_va: u64)
    ensures
        ({
            let (t, r) = s.sys_map_mmio(paddr, size, user_va);
            &&& r == Ok::<u64, crate::machine::Fault>(0) || r is Err ==> {
                &&& dispatch::rounded(size) is Some
                &&& s.k.protect.allows(paddr, dispatch::rounded(size)->0 as u64)
                &&& s.k.task.grants(paddr, dispatch::rounded(size)->0 as u64)
                &&& s.k.task.available(user_va, (dispatch::rounded(size)->0 / 4096) as u64)
            }
            &&& r is Ok && r != Ok::<u64, crate::machine::Fault>(0) ==> t == s
        }),
{
}

pub(crate) proof fn lemma_binding(task: TaskResources, line: u32, from: int)
    requires
        0 <= from,
    ensures
        match task.binding(line, from) {
            Some(i) => from <= i < task.irq_binding_count && task.irq_bindings@[i].intid == line,
            None => true,
        },
    decreases task.irq_binding_count - from,
{
    if from < task.irq_binding_count && task.irq_bindings@[from].intid != line {
        lemma_binding(task, line, from + 1);
    }
}

/// Whether an interrupt waits does not change where it is bound.
pub(crate) proof fn lemma_binding_kept(task: TaskResources, line: u32, i: int, awaiting: bool, from: int)
    requires
        0 <= from,
        0 <= i < 16,
        task.irq_binding_count <= 16,
    ensures
        task.with_awaiting(i, awaiting).binding(line, from) == task.binding(line, from),
    decreases task.irq_binding_count - from,
{
    if from < task.irq_binding_count {
        lemma_binding_kept(task, line, i, awaiting, from + 1);
    }
}

/// All pages of the run are free.
pub open spec fn run_free(mem: PhysicalMemory, pa: u64, pages: u64) -> bool {
    forall|a: int| (FreeRange { base: pa, pages }).covers(a) ==> #[trigger] mem.is_free(a)
}

/// What was free is free.
pub open spec fn keeps_free(before: PhysicalMemory, after: PhysicalMemory) -> bool {
    forall|a: int| before.is_free(a) ==> #[trigger] after.is_free(a)
}

/// Runs that come back are free.
pub proof fn law_returned_runs_are_free(mem: PhysicalMemory, runs: Seq<(u64, u64)>, k: int)
    requires
        mem.wf(),
        0 <= k <= runs.len(),
        forall|j: int|
            0 <= j < runs.len() ==> PhysicalMemory::returnable(
                (#[trigger] runs[j]).0,
                runs[j].1,
            ),
        !mem.freed_runs(runs, k).1,
    ensures
        mem.freed_runs(runs, k).0.wf(),
        keeps_free(mem, mem.freed_runs(runs, k).0),
        forall|j: int|
            0 <= j < k ==> run_free(mem.freed_runs(runs, k).0, (#[trigger] runs[j]).0, runs[j].1),
    decreases k,
{
    reveal(PhysicalMemory::freed);
    if k > 0 {
        law_returned_runs_are_free(mem, runs, k - 1);
        let before = mem.freed_runs(runs, k - 1).0;
        let after = mem.freed_runs(runs, k).0;
        let run = runs[k - 1];
        assert(PhysicalMemory::returnable(run.0, run.1));
        if run.1 != 0 {
            physical::law_freed(before, run.0, run.1);
        } else {
            assert(after == before);
        }
        assert forall|a: int| before.is_free(a) || (FreeRange {
            base: run.0,
            pages: run.1,
        }).covers(a) implies #[trigger] after.is_free(a) by {}
        assert forall|a: int| mem.is_free(a) implies #[trigger] after.is_free(a) by {
            assert(before.is_free(a));
        }
        assert forall|j: int| 0 <= j < k implies run_free(
            after,
            (#[trigger] runs[j]).0,
            runs[j].1,
        ) by {
            if j < k - 1 {
                assert(run_free(before, runs[j].0, runs[j].1));
                assert forall|a: int| (FreeRange {
                    base: runs[j].0,
                    pages: runs[j].1,
                }).covers(a) implies #[trigger] after.is_free(a) by {
                    assert(before.is_free(a));
                }
            }
        }
    }
}

pub(crate) proof fn lemma_drop(s: MachineView, root: u64, va: int, pa: u64, pages: u64)
    requires
        s.k.mem.wf(),
        PhysicalMemory::returnable(pa, pages),
        s.drop_pages(root, va, pa, pages).1 is None,
    ensures
        ({
            let t = s.drop_pages(root, va, pa, pages).0;
            &&& t.k == (crate::machine::Kernel { mem: t.k.mem, ..s.k })
            &&& t.k.mem.wf()
            &&& keeps_free(s.k.mem, t.k.mem)
            &&& run_free(t.k.mem, pa, pages)
        }),
{
    vspace::lemma_unmap_run_frame(s, root, va, pages as int);
    if pages != 0 {
        let runs = seq![(pa, pages)];
        law_returned_runs_are_free(s.k.mem, runs, 1);
        assert(runs[0] == (pa, pages));
    }
}

/// The memory of thread `slot` is free.
pub open spec fn thread_memory_free(mem: PhysicalMemory, thread: Thread) -> bool {
    thread.owner != 0 ==> {
        &&& run_free(mem, thread.stack_pa, thread.stack_pages)
        &&& thread.ipc_pa != 0 ==> run_free(mem, thread.ipc_pa, 1)
    }
}

proof fn lemma_cleanup_slot(s: MachineView, root: u64, slot: int)
    requires
        s.k.mem.wf(),
        0 <= slot < 16,
        s.k.threads.slots@[slot].wf(),
        s.cleanup_slot(root, slot).1 is None,
    ensures
        ({
            let t = s.cleanup_slot(root, slot).0;
            &&& t.k.mem.wf()
            &&& keeps_free(s.k.mem, t.k.mem)
            &&& thread_memory_free(t.k.mem, s.k.threads.slots@[slot])
            &&& forall|i: int|
                0 <= i < 16 && i != slot ==> (#[trigger] t.k.threads.slots@[i])
                    == s.k.threads.slots@[i]
            &&& t.k.frames == s.k.frames
            &&& t.k.task == s.k.task
        }),
{
    let thread = s.k.threads.slots@[slot];
    let table = if thread.vspace_root > root {
        thread.vspace_root
    } else {
        root
    };
    if thread.owner != 0 {
        lemma_drop(s, table, thread.stack_va as int, thread.stack_pa, thread.stack_pages);
        let t = s.drop_pages(
            table,
            thread.stack_va as int,
            thread.stack_pa,
            thread.stack_pages,
        ).0;
        let pages: u64 = if thread.ipc_pa != 0 {
            1
        } else {
            0
        };
        lemma_drop(t, table, thread.ipc_va as int, thread.ipc_pa, pages);
        let u = t.drop_ipc(table, thread).0;
        assert(keeps_free(t.k.mem, u.k.mem));
    }
}

proof fn lemma_cleanup_slots(s: MachineView, root: u64, k: int)
    requires
        s.k.mem.wf(),
        0 <= k <= 16,
        s.k.threads.wf(),
        s.cleanup_slots(root, k).1 is None,
    ensures
        ({
            let t = s.cleanup_slots(root, k).0;
            &&& t.k.mem.wf()
            &&& keeps_free(s.k.mem, t.k.mem)
            &&& forall|i: int|
                0 <= i < k ==> thread_memory_free(
                    t.k.mem,
                    #[trigger] s.k.threads.slots@[i],
                )
            &&& forall|i: int|
                k <= i < 16 ==> (#[trigger] t.k.threads.slots@[i]) == s.k.threads.slots@[i]
            &&& t.k.frames == s.k.frames
            &&& t.k.task == s.k.task
        }),
    decreases k,
{
    if k > 0 {
        lemma_cleanup_slots(s, root, k - 1);
        let t = s.cleanup_slots(root, k - 1).0;
        assert(t.k.threads.slots@[k - 1] == s.k.threads.slots@[k - 1]);
        assert(s.k.threads.slots@[k - 1].wf());
        lemma_cleanup_slot(t, root, k - 1);
        let u = s.cleanup_slots(root, k).0;
        assert forall|i: int| 0 <= i < k implies thread_memory_free(
            u.k.mem,
            #[trigger] s.k.threads.slots@[i],
        ) by {
            if i < k - 1 {
                assert(thread_memory_free(t.k.mem, s.k.threads.slots@[i]));
            }
        }
    }
}

/// Two tables hold the same frames, whatever their mapping counts.
pub open spec fn same_frames(a: [FrameEntry; 64], b: [FrameEntry; 64]) -> bool {
    forall|i: int|
        0 <= i < 64 ==> (#[trigger] b@[i]) == (FrameEntry {
            mapping_count: b@[i].mapping_count,
            ..a@[i]
        })
}

proof fn lemma_undo(s: MachineView, owner: u32, taken: Seq<vspace::MappingEntry>, k: int)
    requires
        0 <= k <= taken.len(),
    ensures
        ({
            let t = s.undo_mappings(owner, taken, k);
            &&& t.k.mem == s.k.mem
            &&& t.k.task == s.k.task
            &&& same_frames(s.k.frames, t.k.frames)
        }),
    decreases k,
{
    if k > 0 {
        lemma_undo(s, owner, taken, k - 1);
        let t = s.undo_mappings(owner, taken, k - 1);
        let entry = taken[k - 1];
        vspace::lemma_unmap_run_frame(t, entry.target_root, entry.va as int, entry.pages as int);
        let u = s.undo_mappings(owner, taken, k);
        assert forall|i: int| 0 <= i < 64 implies (#[trigger] u.k.frames@[i]) == (FrameEntry {
            mapping_count: u.k.frames@[i].mapping_count,
            ..s.k.frames@[i]
        }) by {
            assert(t.k.frames@[i] == (FrameEntry {
                mapping_count: t.k.frames@[i].mapping_count,
                ..s.k.frames@[i]
            }));
        }
    }
}

proof fn lemma_unmap_runs(s: MachineView, root: u64, runs: Seq<(u64, u64)>, k: int)
    ensures
        s.unmap_runs(root, runs, k).k == s.k,
    decreases k,
{
    if k > 0 {
        lemma_unmap_runs(s, root, runs, k - 1);
        vspace::lemma_unmap_run_frame(
            s.unmap_runs(root, runs, k - 1),
            root,
            runs[k - 1].0 as int,
            runs[k - 1].1 as int,
        );
    }
}

/// The runs of a frame table are sound, and each frame of the owner is among them.
proof fn lemma_frame_runs(frames: [FrameEntry; 64], owner: u32, k: int)
    requires
        0 <= k <= 64,
        frame::frames_ok(frames),
    ensures
        forall|j: int|
            0 <= j < frame::runs_of(frames, owner, k).len() ==> PhysicalMemory::returnable(
                (#[trigger] frame::runs_of(frames, owner, k)[j]).0,
                frame::runs_of(frames, owner, k)[j].1,
            ),
        forall|i: int|
            0 <= i < k && (#[trigger] frames@[i]).owner == owner ==> frame::runs_of(
                frames,
                owner,
                k,
            ).contains((frames@[i].pa, frames@[i].pages)),
    decreases k,
{
    if k > 0 {
        lemma_frame_runs(frames, owner, k - 1);
        assert(frames@[k - 1].wf());
        let before = frame::runs_of(frames, owner, k - 1);
        let after = frame::runs_of(frames, owner, k);
        assert forall|i: int|
            0 <= i < k && (#[trigger] frames@[i]).owner == owner implies after.contains(
            (frames@[i].pa, frames@[i].pages),
        ) by {
            if i < k - 1 {
                let j = choose|j: int|
                    0 <= j < before.len() && before[j] == (frames@[i].pa, frames@[i].pages);
                assert(after[j] == (frames@[i].pa, frames@[i].pages));
            } else {
                assert(after[after.len() - 1] == (frames@[i].pa, frames@[i].pages));
            }
        }
    }
}

proof fn lemma_memory_runs(task: TaskResources)
    requires
        task.wf(),
    ensures
        forall|j: int|
            0 <= j < task.memory_runs().len() ==> PhysicalMemory::returnable(
                (#[trigger] task.memory_runs()[j]).0,
                task.memory_runs()[j].1,
            ),
{
    let n = task.owned_count as int;
    assert forall|j: int| 0 <= j < task.memory_runs().len() implies PhysicalMemory::returnable(
        (#[trigger] task.memory_runs()[j]).0,
        task.memory_runs()[j].1,
    ) by {
        if j < n {
            assert(task.owned@[j].wf());
        } else if j >= n + 3 {
            assert(task.dma@[j - n - 3].wf());
        }
    }
}

/// When the task ends without a fault, all memory that it used is free again: its image, stack,
/// boot information, heap and DMA memory, the stacks and message buffers of its threads, and its
/// frames. What was free before stays free, and no interrupt is bound any more.
pub proof fn law_exit_gives_memory_back(s: MachineView)
    requires
        s.wf(),
        s.k.task.active,
        s.k.threads.initialized,
        s.task_exit().1 is Ok,
    ensures
        ({
            let t = s.task_exit().0;
            &&& !t.k.task.active
            &&& t.k.task.irq_binding_count == 0
            &&& keeps_free(s.k.mem, t.k.mem)
            &&& forall|j: int|
                0 <= j < s.k.task.memory_runs().len() ==> run_free(
                    t.k.mem,
                    (#[trigger] s.k.task.memory_runs()[j]).0,
                    s.k.task.memory_runs()[j].1,
                )
            &&& forall|i: int|
                0 <= i < 16 ==> thread_memory_free(t.k.mem, #[trigger] s.k.threads.slots@[i])
            &&& forall|i: int|
                0 <= i < 64 && (#[trigger] s.k.frames@[i]).owner == s.k.task.owner() ==> run_free(
                    t.k.mem,
                    s.k.frames@[i].pa,
                    s.k.frames@[i].pages,
                )
        }),
{
    let owner = s.k.task.owner();
    let root = s.k.active_table;
    let (stopped, lost) = s.task_stopped();
    let quiet = s.with_task(TaskResources { irq_binding_count: 0, ..s.k.task }).with_ops(
        s.k.task.disable_bound(s.k.gic, s.k.task.irq_binding_count as int),
    ).sched_cleanup();
    let silent = quiet.with_ipc(quiet.k.ipc.without_owner(owner));
    lemma_cleanup_slots(silent, root, 16);
    let cleaned = silent.cleanup_slots(root, 16).0;
    let taken = vspace::mappings_of(stopped.k.spaces.mappings, owner, 128);
    let dropped = stopped.with_spaces(
        vspace::VSpaces {
            mappings: crate::util::mapped(
                stopped.k.spaces.mappings,
                vspace::drop_mapping(owner),
                128,
            ),
            ..stopped.k.spaces
        },
    );
    lemma_undo(dropped, owner, taken, taken.len() as int);
    let unmapped = stopped.vspace_cleanup(owner);
    let task = unmapped.k.task;
    assert(task == TaskResources { irq_binding_count: 0, ..s.k.task });
    lemma_unmap_runs(unmapped, root, task.user_runs(), task.user_runs().len() as int);
    let t = unmapped.unmap_runs(root, task.user_runs(), task.user_runs().len() as int).op(
        crate::hw::HwOp::FlushTlb,
    );
    assert(same_frames(s.k.frames, t.k.frames));
    assert forall|i: int| 0 <= i < 64 implies (#[trigger] t.k.frames@[i]).wf() by {
        assert(s.k.frames@[i].wf());
    }
    let runs = frame::runs_of(t.k.frames, owner, 64);
    lemma_frame_runs(t.k.frames, owner, 64);
    let (u, framed) = t.frame_cleanup(owner);
    law_returned_runs_are_free(t.k.mem, runs, runs.len() as int);
    assert(task.memory_runs() =~= s.k.task.memory_runs());
    lemma_memory_runs(task);
    law_returned_runs_are_free(u.k.mem, task.memory_runs(), task.memory_runs().len() as int);
    let last = s.task_exit().0;
    assert(last.k.mem == u.k.mem.freed_runs(
        task.memory_runs(),
        task.memory_runs().len() as int,
    ).0);
    assert forall|i: int| 0 <= i < 16 implies thread_memory_free(
        last.k.mem,
        #[trigger] s.k.threads.slots@[i],
    ) by {
        assert(thread_memory_free(cleaned.k.mem, silent.k.threads.slots@[i]));
    }
    assert forall|i: int|
        0 <= i < 64 && (#[trigger] s.k.frames@[i]).owner == owner implies run_free(
        last.k.mem,
        s.k.frames@[i].pa,
        s.k.frames@[i].pages,
    ) by {
        let entry = t.k.frames@[i];
        assert(entry.owner == owner);
        assert(runs.contains((entry.pa, entry.pages)));
        let j = choose|j: int| 0 <= j < runs.len() && runs[j] == (entry.pa, entry.pages);
        assert(run_free(u.k.mem, runs[j].0, runs[j].1));
    }
}

/// A thread that was destroyed is not found any more.
pub proof fn law_destroyed_thread_is_stale(s: MachineView, handle: u64)
    requires
        s.wf(),
        s.thread_destroy(handle).1 == Ok::<u64, crate::machine::Fault>(0),
    ensures
        s.thread_destroy(handle).0.k.threads.resolve_control(
            s.k.task.owner(),
            handle,
        ) is Err,
        s.thread_destroy(handle).0.k.threads.resolve(s.k.task.owner(), handle) is Err,
{
    match s.k.threads.resolve_control(s.k.task.owner(), handle) {
        Err(_) => {},
        Ok(slot) => {
            let thread = s.k.threads.slots@[slot];
            assert(thread.wf());
            crate::handle::law_generation_moves(thread.generation);
            let pages: u64 = if thread.ipc_pa != 0 {
                1
            } else {
                0
            };
            vspace::lemma_unmap_run_frame(
                s,
                thread.vspace_root,
                thread.ipc_va as int,
                pages as int,
            );
        },
    }
}

} // verus!
