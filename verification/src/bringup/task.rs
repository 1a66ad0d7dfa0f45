//! The resources of the one task, and how they are taken back.
//!
//! Interrupts reach the task one at a time: a bound interrupt is enabled only while the task
//! waits, and stays active until the task has acknowledged it.
use crate::bringup::gic::{self, MonitorGic};
use crate::hw::HwOp;
use crate::interrupt;
use crate::machine::{Fault, Machine, MachineView};
use crate::memory::physical::PhysicalMemory;
use crate::memory::{mmu, physical};
use crate::object::task::{unmap_runs, UserMapping};
use crate::util::ArrayUpdate;
use vstd::prelude::*;

verus! {

pub const MAX_MMIO_MAPPINGS: usize = 16;

pub const MAX_IRQ_BINDINGS: usize = 16;

/// Where the task's program begins.
pub const USER_BASE: u64 = 0x4000_0000;

/// Where the task sees the device tree.
pub const DTB_USER_VA: u64 = 0x4020_0000;

pub const USER_STACK_TOP: u64 = 0x4100_0000;

pub const USER_STACK_PAGES: u64 = 4;

#[derive(Clone, Copy)]
#[verifier::ext_equal]
pub struct MonitorTask {
    pub active: bool,
    pub code_pa: u64,
    pub code_pages: u64,
    pub stack_pa: u64,
    pub dtb_pages: u64,
    pub mmio: [UserMapping; 16],
    pub mmio_count: usize,
    pub irqs: [u32; 16],
    pub irq_count: usize,
    /// Token of the interrupt that was taken and not yet ended; zero if there is none.
    pub active_iar: u32,
}

impl MonitorTask {
    pub open spec fn wf(self) -> bool {
        &&& self.mmio_count <= 16
        &&& self.irq_count <= 16
        &&& PhysicalMemory::returnable(self.code_pa, self.code_pages)
        &&& PhysicalMemory::returnable(self.stack_pa, USER_STACK_PAGES)
        &&& DTB_USER_VA + self.dtb_pages * 4096 <= 0x1_0000_0000_0000_0000
        &&& forall|i: int| 0 <= i < self.mmio_count ==> (#[trigger] self.mmio@[i]).wf()
    }

    pub open spec fn installed(code_pa: u64, code_pages: u64, stack_pa: u64, dtb_pages: u64)
        -> MonitorTask {
        MonitorTask {
            active: true,
            code_pa,
            code_pages,
            stack_pa,
            dtb_pages,
            mmio: crate::util::filled(UserMapping { va: 0, pages: 0 }),
            mmio_count: 0,
            irqs: crate::util::filled(0),
            irq_count: 0,
            active_iar: 0,
        }
    }

    /// The place of a bound interrupt, at `from` or later.
    pub open spec fn place_of(self, intid: u32, from: int) -> Option<int>
        decreases self.irq_count - from,
    {
        if from < 0 || from >= self.irq_count {
            None
        } else if self.irqs@[from] == intid {
            Some(from)
        } else {
            self.place_of(intid, from + 1)
        }
    }

    pub open spec fn with_irq(self, intid: u32) -> MonitorTask {
        MonitorTask {
            irqs: self.irqs.upd(self.irq_count as int, intid),
            irq_count: (self.irq_count + 1) as usize,
            ..self
        }
    }

    /// The last binding moves to the place of the one that goes.
    pub open spec fn without_irq(self, i: int) -> MonitorTask {
        MonitorTask {
            irqs: self.irqs.upd(i, self.irqs@[self.irq_count - 1]),
            irq_count: (self.irq_count - 1) as usize,
            ..self
        }
    }

    /// This interrupt was taken and not yet ended.
    pub open spec fn is_active(self, intid: u32) -> bool {
        self.active_iar != 0 && self.active_iar % 1024 == intid
    }

    /// Operations on each of the first `k` bound interrupts.
    pub open spec fn on_bound(self, g: MonitorGic, enable: bool, k: int) -> Seq<HwOp>
        decreases k,
    {
        if k <= 0 {
            seq![]
        } else {
            self.on_bound(g, enable, k - 1) + if enable {
                g.gic.enable_ops(self.irqs@[k - 1])
            } else {
                g.gic.disable_ops(self.irqs@[k - 1])
            }
        }
    }

    /// Operations that disable all bound interrupts and end the active one.
    pub open spec fn quiet_ops(self, g: MonitorGic) -> Seq<HwOp> {
        self.on_bound(g, false, self.irq_count as int) + if self.active_iar != 0 {
            g.end_ops(self.active_iar)
        } else {
            seq![]
        }
    }

    /// What the task has mapped: program, stack, device tree, devices.
    pub open spec fn user_runs(self) -> Seq<(u64, u64)> {
        seq![
            (USER_BASE, self.code_pages),
            ((USER_STACK_TOP - USER_STACK_PAGES * 4096) as u64, USER_STACK_PAGES),
            (DTB_USER_VA, self.dtb_pages),
        ] + mapping_runs(self.mmio, self.mmio_count as int)
    }
}

/// Address and page count of each of the first `k` mappings.
pub open spec fn mapping_runs(mappings: [UserMapping; 16], k: int) -> Seq<(u64, u64)>
    decreases k,
{
    if k <= 0 {
        seq![]
    } else {
        mapping_runs(mappings, k - 1).push((mappings@[k - 1].va, mappings@[k - 1].pages))
    }
}

/// Records what a new task owns, before it first runs.
pub fn install(task: &mut MonitorTask, code_pa: u64, code_pages: u64, stack_pa: u64, dtb_pages: u64)
    requires
        PhysicalMemory::returnable(code_pa, code_pages),
        PhysicalMemory::returnable(stack_pa, USER_STACK_PAGES),
        DTB_USER_VA + dtb_pages * 4096 <= 0x1_0000_0000_0000_0000,
    ensures
        *final(task) == MonitorTask::installed(code_pa, code_pages, stack_pa, dtb_pages),
        final(task).wf(),
{
    *task =
    MonitorTask {
        active: true,
        code_pa,
        code_pages,
        stack_pa,
        dtb_pages,
        mmio: [UserMapping { va: 0, pages: 0 };16],
        mmio_count: 0,
        irqs: [0u32;16],
        irq_count: 0,
        active_iar: 0,
    };
}

pub fn can_record_mmio(task: &MonitorTask) -> (r: bool)
    ensures
        r == (task.active && task.mmio_count < 16),
{
    task.active && task.mmio_count < MAX_MMIO_MAPPINGS
}

/// Records a device mapping that was made.
pub fn record_mmio(task: &mut MonitorTask, user_va: u64, pages: u64)
    requires
        old(task).wf(),
        old(task).mmio_count < 16,
        user_va + pages * 4096 <= u64::MAX,
    ensures
        *final(task) == (MonitorTask {
            mmio: old(task).mmio.upd(
                old(task).mmio_count as int,
                UserMapping { va: user_va, pages },
            ),
            mmio_count: (old(task).mmio_count + 1) as usize,
            ..*old(task)
        }),
        final(task).wf(),
{
    let place: usize = task.mmio_count;
    task.mmio[place] = UserMapping { va: user_va, pages };
    task.mmio_count = place + 1;
}

/// Whether the task may bind this interrupt.
pub fn can_bind_irq(task: &MonitorTask, g: &MonitorGic, intid: u32) -> (r: bool)
    ensures
        r == (task.active && g.uart_intid != 0 && g.uart_intid == intid),
{
    task.active && gic::is_authorized(g, intid)
}

fn find_irq(task: &MonitorTask, intid: u32) -> (r: Option<usize>)
    requires
        task.wf(),
    ensures
        match r {
            Some(i) => task.place_of(intid, 0) == Some(i as int) && i < task.irq_count,
            None => task.place_of(intid, 0) is None,
        },
{
    let mut i: usize = 0;
    while i < task.irq_count
        invariant
            task.wf(),
            i <= task.irq_count,
            task.place_of(intid, 0) == task.place_of(intid, i as int),
        decreases task.irq_count - i,
    {
        if task.irqs[i] == intid {
            return Some(i);
        }
        i = i + 1;
    }
    None
}

/// Binds an interrupt; false if it is bound already, there is no room, or there is no task.
pub fn bind_irq(task: &mut MonitorTask, intid: u32) -> (r: bool)
    requires
        old(task).wf(),
    ensures
        r == (old(task).active && old(task).irq_count < 16 && old(task).place_of(intid, 0) is None),
        *final(task) == if r {
            old(task).with_irq(intid)
        } else {
            *old(task)
        },
        final(task).wf(),
{
    if !task.active || task.irq_count >= MAX_IRQ_BINDINGS {
        return false;
    }
    if find_irq(task, intid).is_some() {
        return false;
    }
    let place: usize = task.irq_count;
    task.irqs[place] = intid;
    task.irq_count = place + 1;
    true
}

/// Disables an interrupt and gives its binding up. If it is active it is ended first.
pub fn unbind_irq(task: &mut MonitorTask, g: &MonitorGic, ops: &mut Vec<HwOp>, intid: u32) -> (r:
    bool)
    requires
        old(task).wf(),
    ensures
        match old(task).place_of(intid, 0) {
            Some(i) if old(task).active => {
                &&& r
                &&& *final(task) == (MonitorTask {
                    active_iar: if old(task).is_active(intid) {
                        0
                    } else {
                        old(task).active_iar
                    },
                    ..old(task).without_irq(i)
                })
                &&& final(ops)@ == old(ops)@ + g.gic.disable_ops(intid) + if old(task).is_active(
                    intid,
                ) {
                    g.end_ops(old(task).active_iar)
                } else {
                    seq![]
                }
            },
            _ => !r && *final(task) == *old(task) && final(ops)@ == old(ops)@,
        },
        final(task).wf(),
{
    if !task.active {
        return false;
    }
    match find_irq(task, intid) {
        None => false,
        Some(i) => {
            interrupt::gic::disable_spi(&g.gic, ops, intid);
            let ghost disabled = ops@;
            if task.active_iar != 0 && interrupt::gic::intid(task.active_iar) == intid {
                gic::write_eoir(g, ops, task.active_iar);
                task.active_iar = 0;
            } else {
                assert(ops@ =~= disabled + Seq::<HwOp>::empty());
            }
            let last: usize = task.irq_count - 1;
            task.irqs[i] = task.irqs[last];
            task.irq_count = last;
            true
        },
    }
}

pub fn has_binding(task: &MonitorTask, intid: u32) -> (r: bool)
    requires
        task.wf(),
    ensures
        r == (task.place_of(intid, 0) is Some),
{
    find_irq(task, intid).is_some()
}

/// The interrupt that was bound first.
pub fn first_bound_intid(task: &MonitorTask) -> (r: Option<u32>)
    ensures
        r == if task.irq_count > 0 {
            Some(task.irqs@[0])
        } else {
            None
        },
{
    if task.irq_count > 0 {
        Some(task.irqs[0])
    } else {
        None
    }
}

/// Enables every bound interrupt, for a wait.
pub fn enable_bound_irqs(task: &MonitorTask, g: &MonitorGic, ops: &mut Vec<HwOp>)
    requires
        task.wf(),
    ensures
        final(ops)@ == old(ops)@ + task.on_bound(*g, true, task.irq_count as int),
{
    let mut i: usize = 0;
    assert(ops@ =~= old(ops)@ + task.on_bound(*g, true, 0));
    while i < task.irq_count
        invariant
            task.wf(),
            i <= task.irq_count,
            ops@ == old(ops)@ + task.on_bound(*g, true, i as int),
        decreases task.irq_count - i,
    {
        interrupt::gic::enable_spi(&g.gic, ops, task.irqs[i]);
        i = i + 1;
        assert(ops@ =~= old(ops)@ + task.on_bound(*g, true, i as int));
    }
}

/// Disables every bound interrupt, after a wait.
pub fn disable_bound_irqs(task: &MonitorTask, g: &MonitorGic, ops: &mut Vec<HwOp>)
    requires
        task.wf(),
    ensures
        final(ops)@ == old(ops)@ + task.on_bound(*g, false, task.irq_count as int),
{
    let mut i: usize = 0;
    assert(ops@ =~= old(ops)@ + task.on_bound(*g, false, 0));
    while i < task.irq_count
        invariant
            task.wf(),
            i <= task.irq_count,
            ops@ == old(ops)@ + task.on_bound(*g, false, i as int),
        decreases task.irq_count - i,
    {
        interrupt::gic::disable_spi(&g.gic, ops, task.irqs[i]);
        i = i + 1;
        assert(ops@ =~= old(ops)@ + task.on_bound(*g, false, i as int));
    }
}

/// Keeps the token of an interrupt that was taken.
pub fn record_iar(task: &mut MonitorTask, iar_token: u32)
    ensures
        *final(task) == (MonitorTask { active_iar: iar_token, ..*old(task) }),
        old(task).wf() ==> final(task).wf(),
{
    task.active_iar = iar_token;
}

pub fn has_active_iar(task: &MonitorTask) -> (r: bool)
    ensures
        r == (task.active_iar != 0),
{
    task.active_iar != 0
}

pub fn active_iar(task: &MonitorTask) -> (r: u32)
    ensures
        r == task.active_iar,
{
    task.active_iar
}

/// Ends the active interrupt, if it is this one.
pub fn ack_irq(task: &mut MonitorTask, g: &MonitorGic, ops: &mut Vec<HwOp>, intid: u32) -> (r: bool)
    requires
        old(task).wf(),
    ensures
        r == old(task).is_active(intid),
        *final(task) == if r {
            MonitorTask { active_iar: 0, ..*old(task) }
        } else {
            *old(task)
        },
        final(ops)@ == if r {
            old(ops)@ + g.end_ops(old(task).active_iar)
        } else {
            old(ops)@
        },
        final(task).wf(),
{
    if task.active_iar == 0 || interrupt::gic::intid(task.active_iar) != intid {
        return false;
    }
    gic::write_eoir(g, ops, task.active_iar);
    task.active_iar = 0;
    true
}

/// An interrupt that was taken can be acknowledged once: the acknowledgement is accepted, and a
/// second one is not.
pub proof fn law_acknowledged_once(task: MonitorTask, token: u32)
    requires
        task.wf(),
        token != 0,
    ensures
        (MonitorTask { active_iar: token, ..task }).is_active(token % 1024),
        !(MonitorTask { active_iar: 0, ..task }).is_active(token % 1024),
{
}

/// Disables all bound interrupts, ends the active one, and gives the bindings up.
pub fn cleanup_irqs(task: &mut MonitorTask, g: &MonitorGic, ops: &mut Vec<HwOp>)
    requires
        old(task).wf(),
    ensures
        *final(task) == (MonitorTask { active_iar: 0, irq_count: 0, ..*old(task) }),
        final(ops)@ == old(ops)@ + old(task).quiet_ops(*g),
        final(task).wf(),
{
    disable_bound_irqs(task, g, ops);
    if task.active_iar != 0 {
        gic::write_eoir(g, ops, task.active_iar);
        task.active_iar = 0;
    }
    task.irq_count = 0;
    assert(ops@ =~= old(ops)@ + old(task).quiet_ops(*g));
}

impl MachineView {
    /// The end of the task: its mappings go, then its memory comes back.
    pub open spec fn monitor_exit(self, task: MonitorTask, g: MonitorGic) -> (
        MachineView,
        MonitorTask,
        Result<bool, Fault>,
    ) {
        if !task.active {
            (self, task, Ok(false))
        } else {
            let quiet = MonitorTask { active_iar: 0, irq_count: 0, ..task };
            let runs = task.user_runs();
            let s = self.with_ops(task.quiet_ops(g)).unmap_runs(
                self.k.active_table,
                runs,
                runs.len() as int,
            ).op(HwOp::FlushTlb);
            let (t, lost) = s.released(
                seq![(task.code_pa, task.code_pages), (task.stack_pa, USER_STACK_PAGES)],
            );
            match lost {
                Some(fault) => (t, quiet, Err(fault)),
                None => (t, MonitorTask { active: false, ..quiet }, Ok(true)),
            }
        }
    }
}

fn user_runs(task: &MonitorTask) -> (r: Vec<(u64, u64)>)
    requires
        task.wf(),
    ensures
        r@ == task.user_runs(),
        forall|i: int| 0 <= i < r@.len() ==> (#[trigger] r@[i]).0 + r@[i].1 * 4096 <= 0x1_0000_0000_0000_0000,
{
    let stack_va: u64 = USER_STACK_TOP - USER_STACK_PAGES * 4096;
    let mut runs: Vec<(u64, u64)> = vec![
        (USER_BASE, task.code_pages),
        (stack_va, USER_STACK_PAGES),
        (DTB_USER_VA, task.dtb_pages),
    ];
    let ghost fixed = runs@;
    let mut k: usize = 0;
    assert(runs@ =~= fixed + mapping_runs(task.mmio, 0));
    while k < task.mmio_count
        invariant
            task.wf(),
            k <= task.mmio_count,
            runs@ == fixed + mapping_runs(task.mmio, k as int),
            forall|i: int|
                0 <= i < runs@.len() ==> (#[trigger] runs@[i]).0 + runs@[i].1 * 4096 <= 0x1_0000_0000_0000_0000,
        decreases task.mmio_count - k,
    {
        assert(task.mmio@[k as int].wf());
        let ghost before = runs@;
        runs.push((task.mmio[k].va, task.mmio[k].pages));
        k = k + 1;
        assert(runs@ =~= fixed + mapping_runs(task.mmio, k as int));
        assert forall|i: int| 0 <= i < runs@.len() implies (#[trigger] runs@[i]).0 + runs@[i].1
            * 4096 <= 0x1_0000_0000_0000_0000 by {
            if i < before.len() {
                assert(runs@[i] == before[i]);
            }
        }
    }
    assert(runs@ =~= task.user_runs());
    runs
}

/// Ends the task: interrupts first, then mappings, then, after stale translations were dropped,
/// memory. False without a task.
pub fn exit_current(m: &mut Machine, task: &mut MonitorTask, g: &MonitorGic) -> (r: Result<
    bool,
    Fault,
>)
    requires
        old(m)@.wf(),
        old(task).wf(),
    ensures
        (final(m)@, *final(task), r) == old(m)@.monitor_exit(*old(task), *g),
        final(m)@.wf(),
        final(task).wf(),
{
    if !task.active {
        return Ok(false);
    }
    cleanup_irqs(task, g, &mut m.ops);
    let root: u64 = mmu::active_table(m);
    let runs: Vec<(u64, u64)> = user_runs(task);
    unmap_runs(m, root, &runs);
    mmu::flush_el1_tlb(m);
    let memory: Vec<(u64, u64)> = vec![
        (task.code_pa, task.code_pages),
        (task.stack_pa, USER_STACK_PAGES),
    ];
    assert(memory@ =~= seq![(task.code_pa, task.code_pages), (task.stack_pa, USER_STACK_PAGES)]);
    if physical::free_runs(&mut m.k.mem, &memory).is_err() {
        return Err(Fault::RangeTableFull);
    }
    task.active = false;
    Ok(true)
}

} // verus!
