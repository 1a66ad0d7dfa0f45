//! The calls that only pass something on, and the task of the bring-up monitor.
use crate::abi;
use crate::bringup::gic::MonitorGic;
use crate::bringup::protect::Regions;
use crate::bringup::task::{self, MonitorTask};
use crate::hw::HwOp;
use crate::laws::access::{self, mapped_as, only_run_changed};
use crate::laws::exchange::{results_in, runs};
use crate::laws::{endings, resources};
use crate::machine::{Dispatch, Entry, MachineView};
use crate::memory::mmu;
use crate::memory::physical::PHYSICAL_LIMIT;
use crate::syscall::dispatch::TrapFrame;
use vstd::prelude::*;

verus! {

/// Text goes to the console as the caller gave it, and the call returns zero. The end of the task is
/// passed on with its code. A number that stands for no call returns the largest number and does
/// nothing.
pub proof fn law_plain_calls_pass_on(s: MachineView, cx: Entry, frame: TrapFrame)
    requires
        runs(s, cx),
    ensures
        ({
            let sysno = frame.x@[8];
            let (t, result, next) = s.svc_frame(cx, frame);
            &&& sysno == abi::SYS_PUTS ==> {
                &&& t.k == s.k
                &&& t.tables == s.tables
                &&& t.ops == s.ops.push(HwOp::PutUser { va: frame.x@[0], len: frame.x@[1] })
                &&& results_in(frame, result, 0)
                &&& next == Dispatch::Return
            }
            &&& sysno == abi::SYS_EXIT ==> t == s && result == frame && next == Dispatch::Exit(
                frame.x@[0],
            )
            &&& sysno > 64 ==> t == s && results_in(frame, result, u64::MAX) && next
                == Dispatch::Return
        }),
{
}

/// Pages that hold `size` bytes.
pub open spec fn pages_for(size: u64) -> int {
    (size + 4095) / 4096
}

/// The monitor maps a device for its task where it asked, page by page in order and as device
/// memory, if the first address lies in a known window. Nothing else changes.
#[verifier::spinoff_prover]
pub proof fn law_monitor_maps_device(
    s: MachineView,
    regions: Regions,
    paddr: u64,
    size: u64,
    va: u64,
)
    requires
        s.wf(),
        paddr + size + 4095 <= PHYSICAL_LIMIT,
        va + size + 4095 <= 0x80_0000_0000,
    ensures
        ({
            let n = pages_for(size);
            let (t, r) = s.monitor_map(regions, paddr, size, va);
            if paddr % 4096 != 0 || va % 4096 != 0 || size == 0 {
                t == s && r == Ok::<u64, crate::machine::Fault>(1)
            } else if regions.owner_of(paddr, 0) is None {
                t == s && r == Ok::<u64, crate::machine::Fault>(2)
            } else if s.k.active_table == 0 {
                t == s && r == Ok::<u64, crate::machine::Fault>(3)
            } else {
                &&& only_run_changed(s, t, s.k.active_table, va as int, n)
                &&& r is Ok ==> r->Ok_0 == 0 && mapped_as(
                    t,
                    s.k.active_table,
                    va as int,
                    paddr as int,
                    n,
                    true,
                    false,
                    access::DEVICE,
                )
            }
        }),
{
    let n = pages_for(size);
    let root = s.k.active_table;
    crate::util::lemma_round_up(size as int, 4096);
    assert(crate::util::round_up(size as int, 4096) / 4096 == n);
    let (t, r) = s.monitor_map(regions, paddr, size, va);
    if paddr % 4096 == 0 && va % 4096 == 0 && size != 0 {
        access::lemma_map_run(
            s,
            root,
            va as int,
            paddr as int,
            mmu::MMU_USER_DEV,
            n,
            true,
            false,
            access::DEVICE,
        );
        let (b, fault) = s.map_run(root, va as int, paddr as int, mmu::MMU_USER_DEV, n);
        if regions.owner_of(paddr, 0) is Some && root != 0 {
            assert(t.tables == b.tables);
            assert forall|q: u64, x: int|
                0 <= x < 0x80_0000_0000 && !(q == root && va <= x < va + n
                    * 4096) implies #[trigger] t.page_at(q, x) == s.page_at(q, x) by {
                assert(t.page_at(q, x) == b.page_at(q, x));
            }
            if fault is None {
                assert forall|x: int| va <= x < va + n * 4096 implies #[trigger] t.page_at(root, x)
                    == b.page_at(root, x) by {}
                access::lemma_mapped_stays(
                    b,
                    t,
                    root,
                    va as int,
                    paddr as int,
                    n,
                    true,
                    false,
                    access::DEVICE,
                );
            }
        }
    }
}

/// When the monitor's task ends, its program, its stack, its device tree and its devices are not
/// mapped any more, and the pages of its program and its stack are free.
#[verifier::spinoff_prover]
pub proof fn law_monitor_takes_all_back(s: MachineView, task: MonitorTask, g: MonitorGic)
    requires
        s.wf(),
        task.wf(),
        task.active,
        s.monitor_exit(task, g).2 is Ok,
    ensures
        ({
            let (t, after, r) = s.monitor_exit(task, g);
            let root = s.k.active_table;
            let stack = task::USER_STACK_TOP - task::USER_STACK_PAGES * 4096;
            &&& !after.active
            &&& after.irq_count == 0
            &&& after.active_iar == 0
            &&& forall|a: int|
                mmu::in_run(a, task::USER_BASE as int, task.code_pages as int) || mmu::in_run(
                    a,
                    stack,
                    task::USER_STACK_PAGES as int,
                ) || mmu::in_run(a, task::DTB_USER_VA as int, task.dtb_pages as int) ==> (
                #[trigger] t.page_at(root, a)) is None
            &&& forall|i: int, a: int|
                0 <= i < task.mmio_count && #[trigger] mmu::in_run(
                    a,
                    task.mmio@[i].va as int,
                    task.mmio@[i].pages as int,
                ) ==> t.page_at(root, a) is None
            &&& resources::run_free(t.k.mem, task.code_pa, task.code_pages)
            &&& resources::run_free(t.k.mem, task.stack_pa, task::USER_STACK_PAGES)
        }),
{
    let root = s.k.active_table;
    let runs = task.user_runs();
    let (t, after, r) = s.monitor_exit(task, g);
    let a0 = s.with_ops(task.quiet_ops(g));
    assert(a0.tables == s.tables);
    endings::lemma_unmap_runs(a0, root, runs, runs.len() as int);
    let b = a0.unmap_runs(root, runs, runs.len() as int);
    assert(t.tables == b.tables);
    let memory = seq![(task.code_pa, task.code_pages), (task.stack_pa, task::USER_STACK_PAGES)];
    resources::law_returned_runs_are_free(b.k.mem, memory, 2);
    assert(memory[0] == (task.code_pa, task.code_pages));
    assert(memory[1] == (task.stack_pa, task::USER_STACK_PAGES));
    let stack = task::USER_STACK_TOP - task::USER_STACK_PAGES * 4096;
    assert(runs[0] == (task::USER_BASE, task.code_pages));
    assert(runs[1] == (stack as u64, task::USER_STACK_PAGES));
    assert(runs[2] == (task::DTB_USER_VA, task.dtb_pages));
    assert forall|a: int|
        mmu::in_run(a, task::USER_BASE as int, task.code_pages as int) || mmu::in_run(
            a,
            stack,
            task::USER_STACK_PAGES as int,
        ) || mmu::in_run(a, task::DTB_USER_VA as int, task.dtb_pages as int) implies (#[trigger] t.page_at(root, a)) is None by {
        assert(mmu::in_run(a, runs[0].0 as int, runs[0].1 as int) || mmu::in_run(
            a,
            runs[1].0 as int,
            runs[1].1 as int,
        ) || mmu::in_run(a, runs[2].0 as int, runs[2].1 as int));
        assert(t.page_at(root, a) == b.page_at(root, a));
    }
    assert forall|i: int, a: int|
        0 <= i < task.mmio_count && #[trigger] mmu::in_run(
            a,
            task.mmio@[i].va as int,
            task.mmio@[i].pages as int,
        ) implies t.page_at(root, a) is None by {
        lemma_mapping_run(task.mmio, task.mmio_count as int, i);
        assert(runs[3 + i] == (task.mmio@[i].va, task.mmio@[i].pages));
        assert(mmu::in_run(a, runs[3 + i].0 as int, runs[3 + i].1 as int));
        assert(t.page_at(root, a) == b.page_at(root, a));
    }
}

proof fn lemma_mapping_run(
    mappings: [crate::object::task::UserMapping; 16],
    k: int,
    i: int,
)
    requires
        0 <= i < k,
    ensures
        task::mapping_runs(mappings, k).len() == k,
        task::mapping_runs(mappings, k)[i] == (mappings@[i].va, mappings@[i].pages),
    decreases k,
{
    if k > 1 {
        lemma_mapping_run(mappings, k - 1, if i < k - 1 {
            i
        } else {
            0
        });
    } else {
        assert(task::mapping_runs(mappings, 0).len() == 0);
    }
}

} // verus!
