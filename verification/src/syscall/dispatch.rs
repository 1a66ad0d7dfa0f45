//! Exception entry and system call dispatch.
use crate::abi;
use crate::arch::smp;
use crate::hw::HwOp;
use crate::interrupt::gic;
use crate::machine::{Dispatch, Entry, Fault, Kernel, Machine, MachineView};
use crate::memory::{frame, mmu, physical, vspace};
use crate::object::{ipc, task, thread};
use crate::resource::protect;
use crate::scheduler::{priority, timer};
use crate::util::{is_power_of_two, next_power_of_two, ArrayUpdate};
use vstd::prelude::*;

verus! {

/// The registers of an EL0 thread as the exception vectors save them.
#[derive(Clone, Copy)]
#[verifier::ext_equal]
pub struct TrapFrame {
    pub x: [u64; 31],
    pub sp_el0: u64,
    pub elr_el1: u64,
    pub spsr_el1: u64,
    /// The 32 vector registers; compiled code uses them even where no floats are involved.
    pub q: [u128; 32],
}

impl TrapFrame {
    pub open spec fn zeroed() -> TrapFrame {
        TrapFrame {
            x: crate::util::filled(0),
            sp_el0: 0,
            elr_el1: 0,
            spsr_el1: 0,
            q: crate::util::filled(0),
        }
    }

    /// The frame with `value` in the result register.
    pub open spec fn with_result(self, value: u64) -> TrapFrame {
        TrapFrame { x: self.x.upd(0, value), ..self }
    }

    pub fn zero() -> (r: TrapFrame)
        ensures
            r == TrapFrame::zeroed(),
    {
        TrapFrame { x: [0u64; 31], sp_el0: 0, elr_el1: 0, spsr_el1: 0, q: [0u128; 32] }
    }
}

/// How a system call ends that does not switch threads by itself.
#[derive(Clone, Copy, Debug, PartialEq, Eq, Structural)]
pub enum Svc {
    /// It returns this value.
    Value(u64),
    /// It ends the task with this code.
    Exit(u64),
    /// The kernel cannot go on.
    Halt,
}

pub open spec fn svc_of(r: Result<u64, Fault>) -> Svc {
    match r {
        Ok(value) => Svc::Value(value),
        Err(_) => Svc::Halt,
    }
}

fn to_svc(r: Result<u64, Fault>) -> (s: Svc)
    ensures
        s == svc_of(r),
{
    match r {
        Ok(value) => Svc::Value(value),
        Err(_) => Svc::Halt,
    }
}

/// `size` rounded up to whole pages, if that fits.
pub open spec fn rounded(size: u64) -> Option<int> {
    if size + 4095 > u64::MAX {
        None
    } else {
        Some(crate::util::round_up(size as int, 4096))
    }
}

fn round_to_pages(size: u64) -> (r: Option<u64>)
    ensures
        match r {
            Some(value) => rounded(size) == Some(value as int) && value % 4096 == 0 && (size != 0
                ==> value >= 4096) && value >= size,
            None => rounded(size) is None,
        },
{
    match size.checked_add(4095) {
        None => None,
        Some(padded) => {
            proof {
                crate::util::lemma_round_up(size as int, 4096);
            }
            Some((padded / 4096) * 4096)
        },
    }
}

/// Number of pages to which DMA memory of this byte alignment is aligned.
pub open spec fn dma_align_pages(alignment: u64) -> u64 {
    if alignment <= 4096 {
        1
    } else {
        alignment / 4096
    }
}

impl MachineView {
    /// A device range is mapped for the task: it must be a registered window, granted to the
    /// task, and go to a free place in the user window.
    pub open spec fn sys_map_mmio(self, paddr: u64, size: u64, user_va: u64) -> (
        MachineView,
        Result<u64, Fault>,
    ) {
        if paddr % 4096 != 0 || user_va % 4096 != 0 || size == 0 || rounded(size) is None {
            (self, Ok(1))
        } else {
            let bytes = rounded(size)->0;
            let pages = bytes / 4096;
            if !self.k.protect.allows(paddr, bytes as u64) || !self.k.task.grants(
                paddr,
                bytes as u64,
            ) {
                (self, Ok(2))
            } else if self.k.active_table == 0 {
                (self, Ok(3))
            } else if !(self.k.task.active && self.k.task.mmio_count < 16) {
                (self, Ok(4))
            } else if !self.k.task.available(user_va, pages as u64) {
                (self, Ok(5))
            } else {
                let (s, fault) = self.map_run(
                    self.k.active_table,
                    user_va as int,
                    paddr as int,
                    mmu::MMU_USER_DEV,
                    pages,
                );
                match fault {
                    Some(fault) => (s, Err(fault)),
                    None => {
                        let t = s.op(HwOp::FlushTlb);
                        (t.with_task(t.k.task.with_mmio(user_va, pages as u64)), Ok(0))
                    },
                }
            }
        }
    }

    /// A device mapping of the task goes.
    pub open spec fn sys_unmap_mmio(self, user_va: u64, size: u64) -> (MachineView, u64) {
        if user_va % 4096 != 0 || size == 0 || rounded(size) is None {
            (self, 1)
        } else {
            let pages = rounded(size)->0 / 4096;
            match self.k.task.mmio_at(user_va, pages as u64, 0) {
                None => (self, 2),
                Some(i) => {
                    let (s, removed) = self.with_task(self.k.task.without_mmio(i)).unmap_run(
                        self.k.active_table,
                        user_va as int,
                        pages,
                    );
                    if removed != pages {
                        (s, 3)
                    } else {
                        (s.op(HwOp::FlushTlb), 0)
                    }
                },
            }
        }
    }

    /// Contiguous zeroed memory for a device, mapped uncached for the task; its address.
    pub open spec fn sys_dma_alloc(self, size: u64, alignment: u64, user_va: u64) -> (
        MachineView,
        Result<u64, Fault>,
    ) {
        if size == 0 || !crate::util::power_of_two(alignment as int) || alignment > 0x20_0000
            || user_va % 4096 != 0 || rounded(size) is None {
            (self, Ok(u64::MAX))
        } else {
            let bytes = rounded(size)->0;
            let pages = bytes / 4096;
            if !self.k.task.available(user_va, pages as u64) {
                (self, Ok(u64::MAX))
            } else {
                let (mem, run) = self.k.mem.aligned_alloc(
                    pages as u64,
                    dma_align_pages(alignment),
                );
                let s = self.with_mem(mem);
                match run {
                    None => (s, Ok(u64::MAX)),
                    Some(pa) => {
                        let t = s.op(HwOp::Zero { pa, bytes: bytes as u64 });
                        if t.k.task.dma_count >= 64 {
                            t.fail(seq![(pa, pages as u64)], u64::MAX)
                        } else {
                            let (u, fault) = t.with_task(
                                t.k.task.with_dma(user_va, pa, pages as u64),
                            ).map_run(
                                t.k.active_table,
                                user_va as int,
                                pa as int,
                                mmu::MMU_USER_DMA,
                                pages,
                            );
                            match fault {
                                Some(fault) => (u, Err(fault)),
                                None => (u.op(HwOp::FlushTlb), Ok(pa)),
                            }
                        }
                    },
                }
            }
        }
    }

    /// DMA memory of the task is unmapped and given back.
    pub open spec fn sys_dma_free(self, user_va: u64, size: u64) -> (
        MachineView,
        Result<u64, Fault>,
    ) {
        if user_va % 4096 != 0 || size == 0 || rounded(size) is None {
            (self, Ok(1))
        } else {
            let pages = rounded(size)->0 / 4096;
            match self.k.task.dma_at(user_va, pages as u64, 0) {
                None => (self, Ok(2)),
                Some(i) => {
                    let pa = self.k.task.dma@[i].pa;
                    let (s, removed) = self.with_task(self.k.task.without_dma(i)).unmap_run(
                        self.k.active_table,
                        user_va as int,
                        pages,
                    );
                    if removed != pages {
                        (s, Ok(3))
                    } else {
                        s.op(HwOp::FlushTlb).fail(seq![(pa, pages as u64)], 0)
                    }
                },
            }
        }
    }

    /// The processor that an interrupt is bound to.
    pub open spec fn irq_target(cx: Entry, target_cpu: u64) -> int {
        if target_cpu == abi::IRQ_TARGET_CURRENT {
            cx.cpu as int
        } else {
            target_cpu as int
        }
    }

    /// A granted shared interrupt is bound to a notification of the task and enabled.
    pub open spec fn sys_irq_bind(
        self,
        cx: Entry,
        intid: u64,
        notification: u64,
        badge: u64,
        target_cpu: u64,
    ) -> (MachineView, u64) {
        let target = MachineView::irq_target(cx, target_cpu);
        let line = intid as u32;
        if intid > u32::MAX {
            (self, 1)
        } else if target >= self.k.smp.cpu_count {
            (self, abi::SYS_ERR_INVALID)
        } else if intid < 32 {
            (self, 1)
        } else if !self.k.task.active || self.k.task.irq_grant(line, 0) is None {
            (self, 2)
        } else if notification == 0 || badge == 0 || self.k.ipc.find_notification(
            self.k.task.owner(),
            notification,
        ) is Err {
            (self, abi::SYS_ERR_INVALID)
        } else if self.k.task.irq_binding_count >= 16 || self.k.task.binding(line, 0) is Some {
            (self, 3)
        } else {
            let flags = self.k.task.irq_grants@[self.k.task.irq_grant(line, 0)->0].flags;
            (
                self.with_task(
                    self.k.task.with_binding(
                        task::IrqBinding {
                            intid: line,
                            notification,
                            badge,
                            awaiting_ack: false,
                        },
                    ),
                ).with_ops(
                    self.k.gic.configure_ops(line, flags % 4 == 0, target as usize),
                ).with_ops(self.k.gic.enable_ops(line)),
                0,
            )
        }
    }

    /// The task has dealt with a delivered interrupt; it is enabled again.
    pub open spec fn sys_irq_ack(self, intid: u64) -> (MachineView, u64) {
        let line = intid as u32;
        if intid > u32::MAX {
            (self, 1)
        } else {
            match self.k.task.binding(line, 0) {
                Some(i) => if self.k.task.irq_bindings@[i].awaiting_ack {
                    (
                        self.with_task(self.k.task.with_awaiting(i, false)).with_ops(
                            self.k.gic.enable_ops(line),
                        ),
                        0,
                    )
                } else {
                    (self, 1)
                },
                None => (self, 1),
            }
        }
    }

    /// An interrupt of the task is disabled and unbound.
    pub open spec fn sys_irq_unbind(self, intid: u64) -> (MachineView, u64) {
        let line = intid as u32;
        if intid > u32::MAX || !self.k.task.active {
            (self, 1)
        } else {
            match self.k.task.binding(line, 0) {
                Some(i) => (
                    self.with_task(self.k.task.without_binding(i)).with_ops(
                        self.k.gic.disable_ops(line),
                    ),
                    0,
                ),
                None => (self, 1),
            }
        }
    }

    /// A call on memory, devices, interrupts or the console. Numbers without a meaning return the
    /// largest value.
    pub open spec fn svc(
        self,
        cx: Entry,
        sysno: u64,
        a: u64,
        b: u64,
        c: u64,
        d: u64,
        e: u64,
    ) -> (MachineView, Svc) {
        let owner = self.k.task.owner();
        if sysno == abi::SYS_PUTS {
            (self.op(HwOp::PutUser { va: a, len: b }), Svc::Value(0))
        } else if sysno == abi::SYS_MAP_MMIO {
            let (s, r) = self.sys_map_mmio(a, b, c);
            (s, svc_of(r))
        } else if sysno == abi::SYS_EXIT {
            (self, Svc::Exit(a))
        } else if sysno == abi::SYS_IRQ_BIND {
            let (s, r) = self.sys_irq_bind(cx, a, b, c, d);
            (s, Svc::Value(r))
        } else if sysno == abi::SYS_IRQ_ACK {
            let (s, r) = self.sys_irq_ack(a);
            (s, Svc::Value(r))
        } else if sysno == abi::SYS_IRQ_UNBIND {
            let (s, r) = self.sys_irq_unbind(a);
            (s, Svc::Value(r))
        } else if sysno == abi::SYS_UNMAP_MMIO {
            let (s, r) = self.sys_unmap_mmio(a, b);
            (s, Svc::Value(r))
        } else if sysno == abi::SYS_DMA_ALLOC {
            let (s, r) = self.sys_dma_alloc(a, b, c);
            (s, svc_of(r))
        } else if sysno == abi::SYS_DMA_FREE {
            let (s, r) = self.sys_dma_free(a, b);
            (s, svc_of(r))
        } else if sysno == abi::SYS_FRAME_ALLOC {
            let (s, r) = self.frame_allocate(owner, a, b);
            (s, Svc::Value(r))
        } else if sysno == abi::SYS_FRAME_FREE {
            let (s, r) = self.frame_free(owner, a);
            (s, svc_of(r))
        } else if sysno == abi::SYS_FRAME_MAP {
            let (s, r) = self.map_frame(
                owner,
                self.k.spaces.handle_on(cx.cpu),
                a,
                b,
                c,
                d,
                e,
                true,
            );
            (s, Svc::Value(r))
        } else if sysno == abi::SYS_FRAME_UNMAP {
            let (s, r) = self.unmap_handle(owner, a);
            (s, Svc::Value(r))
        } else {
            (self, Svc::Value(u64::MAX))
        }
    }
}

fn sys_map_mmio(m: &mut Machine, paddr: u64, size: u64, user_va: u64) -> (r: Result<u64, Fault>)
    requires
        old(m)@.wf(),
    ensures
        (final(m)@, r) == old(m)@.sys_map_mmio(paddr, size, user_va),
        final(m)@.wf(),
{
    if paddr % 4096 != 0 || user_va % 4096 != 0 || size == 0 {
        return Ok(1);
    }
    let size_rounded: u64 = match round_to_pages(size) {
        None => {
            return Ok(1);
        },
        Some(value) => value,
    };
    if !protect::contains_range(&m.k.protect, paddr, size_rounded) || !task::is_mmio_granted(
        &m.k.task,
        paddr,
        size_rounded,
    ) {
        return Ok(2);
    }
    let root: u64 = mmu::active_table(m);
    if root == 0 {
        return Ok(3);
    }
    if !task::can_record_mmio(&m.k.task) {
        return Ok(4);
    }
    let pages: u64 = size_rounded / 4096;
    if !task::range_available(&m.k.task, user_va, pages) {
        return Ok(5);
    }
    proof {
        lemma_map_run_frame(
            m@,
            root,
            user_va as int,
            paddr as int,
            mmu::MMU_USER_DEV,
            pages as int,
        );
    }
    if let Err(fault) = mmu::map(m, root, user_va, paddr, mmu::MMU_USER_DEV, pages) {
        return Err(fault);
    }
    mmu::flush_el1_tlb(m);
    task::record_mmio(&mut m.k.task, user_va, pages);
    Ok(0)
}

/// Mapping touches tables, free pages and operations, nothing else.
pub(crate) proof fn lemma_map_run_frame(s: MachineView, root: u64, va: int, pa: int, flags: u64, n: int)
    ensures
        s.map_run(root, va, pa, flags, n).0.k == (Kernel {
            mem: s.map_run(root, va, pa, flags, n).0.k.mem,
            ..s.k
        }),
    decreases n,
{
    reveal(MachineView::map_run);
    if n > 0 {
        lemma_map_run_frame(s, root, va, pa, flags, n - 1);
        let before = s.map_run(root, va, pa, flags, n - 1).0;
        if let Some(i) = mmu::table_of(before.tables, root, 0) {
            vspace::lemma_build_frame(before, i, va + (n - 1) * 4096);
        }
    }
}

fn sys_unmap_mmio(m: &mut Machine, user_va: u64, size: u64) -> (r: u64)
    requires
        old(m)@.wf(),
    ensures
        (final(m)@, r) == old(m)@.sys_unmap_mmio(user_va, size),
        final(m)@.wf(),
{
    if user_va % 4096 != 0 || size == 0 {
        return 1;
    }
    let size_rounded: u64 = match round_to_pages(size) {
        None => {
            return 1;
        },
        Some(value) => value,
    };
    let pages: u64 = size_rounded / 4096;
    if !task::remove_mmio(&mut m.k.task, user_va, pages) {
        return 2;
    }
    let root: u64 = mmu::active_table(m);
    if mmu::unmap(m, root, user_va, pages) != pages {
        return 3;
    }
    mmu::flush_el1_tlb(m);
    0
}

fn sys_dma_alloc(m: &mut Machine, size: u64, alignment: u64, user_va: u64) -> (r: Result<u64, Fault>)
    requires
        old(m)@.wf(),
    ensures
        (final(m)@, r) == old(m)@.sys_dma_alloc(size, alignment, user_va),
        final(m)@.wf(),
{
    if size == 0 || !is_power_of_two(alignment) || alignment > 2 * 1024 * 1024 || user_va % 4096
        != 0 {
        return Ok(0xffff_ffff_ffff_ffff);
    }
    let size_rounded: u64 = match round_to_pages(size) {
        None => {
            return Ok(0xffff_ffff_ffff_ffff);
        },
        Some(value) => value,
    };
    let pages: u64 = size_rounded / 4096;
    if !task::range_available(&m.k.task, user_va, pages) {
        return Ok(0xffff_ffff_ffff_ffff);
    }
    let whole: u64 = (alignment + 4095) / 4096;
    let align_pages: u64 = next_power_of_two(
        if whole < 1 {
            1
        } else {
            whole
        },
    );
    proof {
        lemma_dma_align(alignment, align_pages);
    }
    let pa: u64 = match physical::alloc_pages_aligned(&mut m.k.mem, pages, align_pages) {
        None => {
            return Ok(0xffff_ffff_ffff_ffff);
        },
        Some(pa) => pa,
    };
    m.ops.push(HwOp::Zero { pa, bytes: size_rounded });
    if !task::record_dma(&mut m.k.task, user_va, pa, pages) {
        let runs: Vec<(u64, u64)> = vec![(pa, pages)];
        assert(runs@ =~= seq![(pa, pages)]);
        return thread::fail(m, runs, 0xffff_ffff_ffff_ffff);
    }
    let root: u64 = mmu::active_table(m);
    if let Err(fault) = mmu::map(m, root, user_va, pa, mmu::MMU_USER_DMA, pages) {
        return Err(fault);
    }
    mmu::flush_el1_tlb(m);
    Ok(pa)
}

proof fn lemma_dma_align(alignment: u64, align_pages: u64)
    requires
        crate::util::power_of_two(alignment as int),
        alignment <= 0x20_0000,
        crate::util::power_of_two(align_pages as int),
        ({
            let whole = (alignment + 4095) / 4096;
            let floor = if whole < 1 {
                1
            } else {
                whole
            };
            floor <= align_pages && (align_pages == 1 || align_pages < 2 * floor)
        }),
    ensures
        align_pages == dma_align_pages(alignment),
{
    vstd::arithmetic::power2::lemma2_to64();
    assert(crate::util::power_of_two(1)) by {
        assert(1 == vstd::arithmetic::power2::pow2(0));
    }
    if alignment <= 4096 {
        crate::util::lemma_power_of_two_gap(1, align_pages as int);
    } else {
        crate::util::lemma_power_of_two_pages(alignment as int);
        crate::util::lemma_power_of_two_gap(alignment as int / 4096, align_pages as int);
    }
}

fn sys_dma_free(m: &mut Machine, user_va: u64, size: u64) -> (r: Result<u64, Fault>)
    requires
        old(m)@.wf(),
    ensures
        (final(m)@, r) == old(m)@.sys_dma_free(user_va, size),
        final(m)@.wf(),
{
    if user_va % 4096 != 0 || size == 0 {
        return Ok(1);
    }
    let size_rounded: u64 = match round_to_pages(size) {
        None => {
            return Ok(1);
        },
        Some(value) => value,
    };
    let pages: u64 = size_rounded / 4096;
    let pa: u64 = match task::take_dma(&mut m.k.task, user_va, pages) {
        None => {
            return Ok(2);
        },
        Some(pa) => pa,
    };
    let root: u64 = mmu::active_table(m);
    if mmu::unmap(m, root, user_va, pages) != pages {
        return Ok(3);
    }
    mmu::flush_el1_tlb(m);
    let runs: Vec<(u64, u64)> = vec![(pa, pages)];
    assert(runs@ =~= seq![(pa, pages)]);
    thread::fail(m, runs, 0)
}

fn sys_irq_bind(
    m: &mut Machine,
    cx: &Entry,
    intid: u64,
    notification: u64,
    badge: u64,
    target_cpu: u64,
) -> (r: u64)
    requires
        old(m)@.wf(),
        cx.cpu < 4,
    ensures
        (final(m)@, r) == old(m)@.sys_irq_bind(*cx, intid, notification, badge, target_cpu),
        final(m)@.wf(),
{
    if intid > 0xffff_ffff {
        return 1;
    }
    let line: u32 = intid as u32;
    let target: u64 = if target_cpu == abi::IRQ_TARGET_CURRENT {
        cx.cpu as u64
    } else {
        target_cpu
    };
    if target >= smp::cpu_count(&m.k.smp) as u64 {
        return abi::SYS_ERR_INVALID;
    }
    if line < 32 {
        return 1;
    }
    let flags: u32 = match task::irq_flags(&m.k.task, line) {
        None => {
            return 2;
        },
        Some(flags) => flags,
    };
    if notification == 0 || !ipc::notification_valid(m, notification) || badge == 0 {
        return abi::SYS_ERR_INVALID;
    }
    if !task::bind_irq(&mut m.k.task, line, notification, badge) {
        return 3;
    }
    let trigger_level: bool = flags % 4 == 0;
    gic::configure_spi(&m.k.gic, &mut m.ops, line, trigger_level, target as usize);
    gic::enable_spi(&m.k.gic, &mut m.ops, line);
    0
}

fn sys_irq_ack(m: &mut Machine, intid: u64) -> (r: u64)
    requires
        old(m)@.wf(),
    ensures
        (final(m)@, r) == old(m)@.sys_irq_ack(intid),
        final(m)@.wf(),
{
    if intid > 0xffff_ffff {
        return 1;
    }
    if !task::ack_irq(&mut m.k.task, &m.k.gic, &mut m.ops, intid as u32) {
        return 1;
    }
    0
}

fn sys_irq_unbind(m: &mut Machine, intid: u64) -> (r: u64)
    requires
        old(m)@.wf(),
    ensures
        (final(m)@, r) == old(m)@.sys_irq_unbind(intid),
        final(m)@.wf(),
{
    if intid > 0xffff_ffff {
        return 1;
    }
    if !task::unbind_irq(&mut m.k.task, &m.k.gic, &mut m.ops, intid as u32) {
        return 1;
    }
    0
}

/// Carries out a call on memory, devices, interrupts or the console. `handle_svc_frame` tells
/// these from the calls on threads, messages and address spaces.
pub fn handle_svc(
    m: &mut Machine,
    cx: &Entry,
    sysno: u64,
    arg0: u64,
    arg1: u64,
    arg2: u64,
    arg3: u64,
    arg4: u64,
) -> (r: Svc)
    requires
        old(m)@.wf(),
        cx.cpu < 4,
    ensures
        (final(m)@, r) == old(m)@.svc(*cx, sysno, arg0, arg1, arg2, arg3, arg4),
        final(m)@.wf(),
{
    let owner: u32 = task::current_owner(&m.k.task);
    if sysno == abi::SYS_PUTS {
        m.ops.push(HwOp::PutUser { va: arg0, len: arg1 });
        Svc::Value(0)
    } else if sysno == abi::SYS_MAP_MMIO {
        to_svc(sys_map_mmio(m, arg0, arg1, arg2))
    } else if sysno == abi::SYS_EXIT {
        Svc::Exit(arg0)
    } else if sysno == abi::SYS_IRQ_BIND {
        Svc::Value(sys_irq_bind(m, cx, arg0, arg1, arg2, arg3))
    } else if sysno == abi::SYS_IRQ_ACK {
        Svc::Value(sys_irq_ack(m, arg0))
    } else if sysno == abi::SYS_IRQ_UNBIND {
        Svc::Value(sys_irq_unbind(m, arg0))
    } else if sysno == abi::SYS_UNMAP_MMIO {
        Svc::Value(sys_unmap_mmio(m, arg0, arg1))
    } else if sysno == abi::SYS_DMA_ALLOC {
        to_svc(sys_dma_alloc(m, arg0, arg1, arg2))
    } else if sysno == abi::SYS_DMA_FREE {
        to_svc(sys_dma_free(m, arg0, arg1))
    } else if sysno == abi::SYS_FRAME_ALLOC {
        Svc::Value(frame::allocate(m, owner, arg0, arg1))
    } else if sysno == abi::SYS_FRAME_FREE {
        to_svc(frame::free(m, owner, arg0))
    } else if sysno == abi::SYS_FRAME_MAP {
        Svc::Value(vspace::map_frame(m, cx, owner, arg0, arg1, arg2, arg3, arg4))
    } else if sysno == abi::SYS_FRAME_UNMAP {
        Svc::Value(vspace::unmap_handle(m, owner, arg0))
    } else {
        Svc::Value(0xffff_ffff_ffff_ffff)
    }
}

/// What an operation on messages or notifications leaves: the next context, or its error in
/// the result register.
pub open spec fn ipc_result(
    outcome: (MachineView, TrapFrame, Result<Dispatch, u64>),
) -> (MachineView, TrapFrame, Dispatch) {
    match outcome.2 {
        Ok(next) => (outcome.0, outcome.1, next),
        Err(error) => (outcome.0, outcome.1.with_result(error), Dispatch::Return),
    }
}

/// The result goes to the result register and the caller goes on.
pub open spec fn finished(outcome: (MachineView, u64), frame: TrapFrame) -> (
    MachineView,
    TrapFrame,
    Dispatch,
) {
    (outcome.0, frame.with_result(outcome.1), Dispatch::Return)
}

/// Numbers of the calls on threads.
pub open spec fn is_thread_call(sysno: u64) -> bool {
    sysno == abi::SYS_THREAD_CREATE || sysno == abi::SYS_THREAD_EXIT || sysno
        == abi::SYS_THREAD_YIELD || sysno == abi::SYS_THREAD_SET_PRIORITY || sysno
        == abi::SYS_THREAD_RUNTIME
}

/// Numbers of the calls on endpoints.
pub open spec fn is_endpoint_call(sysno: u64) -> bool {
    sysno == abi::SYS_ENDPOINT_CREATE || sysno == abi::SYS_ENDPOINT_SEND || sysno
        == abi::SYS_ENDPOINT_RECV || sysno == abi::SYS_ENDPOINT_CALL || sysno
        == abi::SYS_ENDPOINT_REPLY || sysno == abi::SYS_ENDPOINT_REPLY_RECV || sysno
        == abi::SYS_ENDPOINT_DESTROY
}

/// Numbers of the calls on notifications.
pub open spec fn is_notification_call(sysno: u64) -> bool {
    sysno == abi::SYS_NOTIFICATION_CREATE || sysno == abi::SYS_NOTIFICATION_SIGNAL || sysno
        == abi::SYS_NOTIFICATION_WAIT || sysno == abi::SYS_NOTIFICATION_POLL || sysno
        == abi::SYS_NOTIFICATION_DESTROY
}

/// Numbers of the calls that build another address space and its threads.
pub open spec fn is_builder_call(sysno: u64) -> bool {
    sysno == abi::SYS_VSPACE_CREATE || sysno == abi::SYS_VSPACE_DESTROY || sysno
        == abi::SYS_FRAME_MAP_TO || sysno == abi::SYS_THREAD_CREATE_IN || sysno
        == abi::SYS_THREAD_START || sysno == abi::SYS_THREAD_SUSPEND || sysno
        == abi::SYS_THREAD_DESTROY
}

/// The result goes to the result register, and the caller goes on unless the kernel cannot.
pub open spec fn finished_unless(outcome: (MachineView, Result<u64, Fault>), frame: TrapFrame) -> (
    MachineView,
    TrapFrame,
    Dispatch,
) {
    match outcome.1 {
        Ok(value) => finished((outcome.0, value), frame),
        Err(_) => (outcome.0, frame, Dispatch::Halt),
    }
}

impl MachineView {
    /// The calls that build another address space and its threads. Mapping a frame there takes
    /// a sixth argument, in x5.
    pub open spec fn builder_svc(self, cx: Entry, frame: TrapFrame) -> (
        MachineView,
        TrapFrame,
        Dispatch,
    ) {
        let sysno = frame.x@[8];
        let a = frame.x@[0];
        let b = frame.x@[1];
        let owner = self.k.task.owner();
        if sysno == abi::SYS_VSPACE_CREATE {
            finished_unless(self.vspace_create(owner), frame)
        } else if sysno == abi::SYS_VSPACE_DESTROY {
            finished_unless(self.vspace_destroy(owner, a), frame)
        } else if sysno == abi::SYS_FRAME_MAP_TO {
            finished(
                self.map_frame(
                    owner,
                    a,
                    b,
                    frame.x@[2],
                    frame.x@[3],
                    frame.x@[4],
                    frame.x@[5],
                    false,
                ),
                frame,
            )
        } else if sysno == abi::SYS_THREAD_CREATE_IN {
            finished_unless(self.thread_create_in(a, b, cx.config), frame)
        } else if sysno == abi::SYS_THREAD_START {
            finished(self.thread_start(cx, a), frame)
        } else if sysno == abi::SYS_THREAD_SUSPEND {
            finished(self.thread_suspend(a), frame)
        } else {
            finished_unless(self.thread_destroy(a), frame)
        }
    }

    pub open spec fn thread_svc(self, cx: Entry, frame: TrapFrame) -> (
        MachineView,
        TrapFrame,
        Dispatch,
    ) {
        let sysno = frame.x@[8];
        let a = frame.x@[0];
        let b = frame.x@[1];
        if sysno == abi::SYS_THREAD_CREATE {
            let (s, r) = self.thread_create(cx, a, b, frame.x@[2], frame.x@[3], frame.x@[4]);
            match r {
                Ok(value) => finished((s, value), frame),
                Err(_) => (s, frame, Dispatch::Halt),
            }
        } else if sysno == abi::SYS_THREAD_EXIT {
            let (s, r) = self.thread_exit(cx, frame);
            match r {
                Ok(Some(next)) => (s, frame, next),
                Ok(None) => (s, frame, Dispatch::Exit(a)),
                Err(_) => (s, frame, Dispatch::Halt),
            }
        } else if sysno == abi::SYS_THREAD_YIELD {
            let (s, next) = self.yield_current(cx, frame.with_result(0));
            (s, frame.with_result(0), next)
        } else if sysno == abi::SYS_THREAD_SET_PRIORITY {
            finished(self.set_priority(cx, a, b), frame)
        } else {
            finished((self, self.thread_runtime(cx, a)), frame)
        }
    }

    pub open spec fn endpoint_svc(self, cx: Entry, frame: TrapFrame) -> (
        MachineView,
        TrapFrame,
        Dispatch,
    ) {
        let sysno = frame.x@[8];
        let a = frame.x@[0];
        if sysno == abi::SYS_ENDPOINT_CREATE {
            finished(self.endpoint_create(), frame)
        } else if sysno == abi::SYS_ENDPOINT_SEND {
            ipc_result(self.send(cx, a, false, frame))
        } else if sysno == abi::SYS_ENDPOINT_RECV {
            ipc_result(self.recv(cx, a, frame))
        } else if sysno == abi::SYS_ENDPOINT_CALL {
            ipc_result(self.send(cx, a, true, frame))
        } else if sysno == abi::SYS_ENDPOINT_REPLY {
            ipc_result(self.reply(cx, a, frame))
        } else if sysno == abi::SYS_ENDPOINT_REPLY_RECV {
            ipc_result(self.reply_recv(cx, a, frame.x@[1], frame))
        } else {
            finished(self.endpoint_destroy(a), frame)
        }
    }

    pub open spec fn notification_svc(self, cx: Entry, frame: TrapFrame) -> (
        MachineView,
        TrapFrame,
        Dispatch,
    ) {
        let sysno = frame.x@[8];
        let a = frame.x@[0];
        if sysno == abi::SYS_NOTIFICATION_CREATE {
            finished(self.notification_create(), frame)
        } else if sysno == abi::SYS_NOTIFICATION_SIGNAL {
            let (s, r) = self.signal(cx, a, frame.x@[1]);
            if r == 0 {
                let (t, next) = s.preempt_if_needed(cx, frame.with_result(0));
                (t, frame.with_result(0), next)
            } else {
                finished((s, r), frame)
            }
        } else if sysno == abi::SYS_NOTIFICATION_WAIT {
            ipc_result(self.wait(cx, a, frame))
        } else if sysno == abi::SYS_NOTIFICATION_POLL {
            finished(self.notification_poll(a), frame)
        } else {
            finished(self.notification_destroy(a), frame)
        }
    }

    /// The system call that the registers in `frame` ask for: its number is in x8, its
    /// arguments in x0 to x5.
    pub open spec fn svc_frame(self, cx: Entry, frame: TrapFrame) -> (
        MachineView,
        TrapFrame,
        Dispatch,
    ) {
        let sysno = frame.x@[8];
        if is_thread_call(sysno) {
            self.thread_svc(cx, frame)
        } else if is_endpoint_call(sysno) {
            self.endpoint_svc(cx, frame)
        } else if is_notification_call(sysno) {
            self.notification_svc(cx, frame)
        } else if is_builder_call(sysno) {
            self.builder_svc(cx, frame)
        } else {
            let (s, outcome) = self.svc(
                cx,
                sysno,
                frame.x@[0],
                frame.x@[1],
                frame.x@[2],
                frame.x@[3],
                frame.x@[4],
            );
            match outcome {
                Svc::Value(value) => finished((s, value), frame),
                Svc::Exit(code) => (s, frame, Dispatch::Exit(code)),
                Svc::Halt => (s, frame, Dispatch::Halt),
            }
        }
    }
}

fn finish(frame: &mut TrapFrame, result: u64) -> (r: Dispatch)
    ensures
        *final(frame) == old(frame).with_result(result),
        r == Dispatch::Return,
{
    frame.x[0] = result;
    Dispatch::Return
}

fn to_dispatch(frame: &mut TrapFrame, result: Result<Dispatch, u64>) -> (r: Dispatch)
    ensures
        match result {
            Ok(next) => r == next && *final(frame) == *old(frame),
            Err(error) => r == Dispatch::Return && *final(frame) == old(frame).with_result(error),
        },
{
    match result {
        Ok(next) => next,
        Err(error) => finish(frame, error),
    }
}

fn finish_unless(frame: &mut TrapFrame, result: Result<u64, Fault>) -> (r: Dispatch)
    ensures
        match result {
            Ok(value) => r == Dispatch::Return && *final(frame) == old(frame).with_result(value),
            Err(_) => r == Dispatch::Halt && *final(frame) == *old(frame),
        },
{
    match result {
        Ok(value) => finish(frame, value),
        Err(_) => Dispatch::Halt,
    }
}

fn builder_svc(m: &mut Machine, cx: &Entry, frame: &mut TrapFrame) -> (r: Dispatch)
    requires
        old(m)@.wf(),
        cx.cpu < 4,
        is_builder_call(old(frame).x@[8]),
    ensures
        (final(m)@, *final(frame), r) == old(m)@.builder_svc(*cx, *old(frame)),
        final(m)@.wf(),
{
    let sysno: u64 = frame.x[8];
    let arg0: u64 = frame.x[0];
    let arg1: u64 = frame.x[1];
    let owner: u32 = task::current_owner(&m.k.task);
    if sysno == abi::SYS_VSPACE_CREATE {
        let result: Result<u64, Fault> = vspace::create(m, owner);
        finish_unless(frame, result)
    } else if sysno == abi::SYS_VSPACE_DESTROY {
        let result: Result<u64, Fault> = vspace::destroy(m, owner, arg0);
        finish_unless(frame, result)
    } else if sysno == abi::SYS_FRAME_MAP_TO {
        let result: u64 = vspace::map_frame_to(
            m,
            owner,
            arg0,
            arg1,
            frame.x[2],
            frame.x[3],
            frame.x[4],
            frame.x[5],
        );
        finish(frame, result)
    } else if sysno == abi::SYS_THREAD_CREATE_IN {
        let result: Result<u64, Fault> = thread::create_in(m, arg0, arg1, cx.config);
        finish_unless(frame, result)
    } else if sysno == abi::SYS_THREAD_START {
        let result: u64 = thread::start(m, cx, arg0);
        finish(frame, result)
    } else if sysno == abi::SYS_THREAD_SUSPEND {
        let result: u64 = thread::suspend(m, arg0);
        finish(frame, result)
    } else {
        let result: Result<u64, Fault> = thread::destroy(m, arg0);
        finish_unless(frame, result)
    }
}

fn endpoint_svc(m: &mut Machine, cx: &Entry, frame: &mut TrapFrame) -> (r: Dispatch)
    requires
        old(m)@.wf(),
        old(m)@.k.threads.runs(cx.cpu as int),
        is_endpoint_call(old(frame).x@[8]),
    ensures
        (final(m)@, *final(frame), r) == old(m)@.endpoint_svc(*cx, *old(frame)),
        final(m)@.wf(),
{
    let sysno: u64 = frame.x[8];
    let arg0: u64 = frame.x[0];
    let arg1: u64 = frame.x[1];
    if sysno == abi::SYS_ENDPOINT_CREATE {
        let result: u64 = ipc::endpoint_create(m);
        finish(frame, result)
    } else if sysno == abi::SYS_ENDPOINT_SEND {
        let result: Result<Dispatch, u64> = ipc::endpoint_send(m, cx, arg0, frame);
        to_dispatch(frame, result)
    } else if sysno == abi::SYS_ENDPOINT_RECV {
        let result: Result<Dispatch, u64> = ipc::endpoint_recv(m, cx, arg0, frame);
        to_dispatch(frame, result)
    } else if sysno == abi::SYS_ENDPOINT_CALL {
        let result: Result<Dispatch, u64> = ipc::endpoint_call(m, cx, arg0, frame);
        to_dispatch(frame, result)
    } else if sysno == abi::SYS_ENDPOINT_REPLY {
        let result: Result<Dispatch, u64> = ipc::endpoint_reply(m, cx, arg0, frame);
        to_dispatch(frame, result)
    } else if sysno == abi::SYS_ENDPOINT_REPLY_RECV {
        let result: Result<Dispatch, u64> = ipc::endpoint_reply_recv(m, cx, arg0, arg1, frame);
        to_dispatch(frame, result)
    } else {
        let result: u64 = ipc::endpoint_destroy(m, arg0);
        finish(frame, result)
    }
}

fn notification_svc(m: &mut Machine, cx: &Entry, frame: &mut TrapFrame) -> (r: Dispatch)
    requires
        old(m)@.wf(),
        old(m)@.k.threads.runs(cx.cpu as int),
        is_notification_call(old(frame).x@[8]),
    ensures
        (final(m)@, *final(frame), r) == old(m)@.notification_svc(*cx, *old(frame)),
        final(m)@.wf(),
{
    let sysno: u64 = frame.x[8];
    let arg0: u64 = frame.x[0];
    let arg1: u64 = frame.x[1];
    if sysno == abi::SYS_NOTIFICATION_CREATE {
        let result: u64 = ipc::notification_create(m);
        finish(frame, result)
    } else if sysno == abi::SYS_NOTIFICATION_SIGNAL {
        let result: u64 = ipc::notification_signal(m, cx, arg0, arg1);
        frame.x[0] = result;
        if result == 0 {
            priority::preempt_if_needed(m, cx, frame)
        } else {
            Dispatch::Return
        }
    } else if sysno == abi::SYS_NOTIFICATION_WAIT {
        let result: Result<Dispatch, u64> = ipc::notification_wait(m, cx, arg0, frame);
        to_dispatch(frame, result)
    } else if sysno == abi::SYS_NOTIFICATION_POLL {
        let result: u64 = ipc::notification_poll(m, arg0);
        finish(frame, result)
    } else {
        let result: u64 = ipc::notification_destroy(m, arg0);
        finish(frame, result)
    }
}

fn thread_svc(m: &mut Machine, cx: &Entry, frame: &mut TrapFrame) -> (r: Dispatch)
    requires
        old(m)@.wf(),
        old(m)@.k.threads.runs(cx.cpu as int),
        is_thread_call(old(frame).x@[8]),
    ensures
        (final(m)@, *final(frame), r) == old(m)@.thread_svc(*cx, *old(frame)),
        final(m)@.wf(),
{
    let sysno: u64 = frame.x[8];
    let arg0: u64 = frame.x[0];
    let arg1: u64 = frame.x[1];
    if sysno == abi::SYS_THREAD_CREATE {
        match thread::create(m, cx, arg0, arg1, frame.x[2], frame.x[3], frame.x[4]) {
            Ok(value) => finish(frame, value),
            Err(_) => Dispatch::Halt,
        }
    } else if sysno == abi::SYS_THREAD_EXIT {
        match thread::exit_current(m, cx, frame) {
            Ok(Some(next)) => next,
            Ok(None) => Dispatch::Exit(arg0),
            Err(_) => Dispatch::Halt,
        }
    } else if sysno == abi::SYS_THREAD_YIELD {
        frame.x[0] = 0;
        thread::yield_current(m, cx, frame)
    } else if sysno == abi::SYS_THREAD_SET_PRIORITY {
        let result: u64 = thread::set_priority(m, cx, arg0, arg1);
        finish(frame, result)
    } else {
        let result: u64 = thread::runtime(m, cx, arg0);
        finish(frame, result)
    }
}

/// Carries out the system call in `frame` and says where the processor goes.
pub fn handle_svc_frame(m: &mut Machine, cx: &Entry, frame: &mut TrapFrame) -> (r: Dispatch)
    requires
        old(m)@.wf(),
        old(m)@.k.threads.runs(cx.cpu as int),
    ensures
        (final(m)@, *final(frame), r) == old(m)@.svc_frame(*cx, *old(frame)),
        final(m)@.wf(),
{
    let sysno: u64 = frame.x[8];
    if sysno == abi::SYS_THREAD_CREATE || sysno == abi::SYS_THREAD_EXIT || sysno
        == abi::SYS_THREAD_YIELD || sysno == abi::SYS_THREAD_SET_PRIORITY || sysno
        == abi::SYS_THREAD_RUNTIME {
        return thread_svc(m, cx, frame);
    }
    if sysno == abi::SYS_ENDPOINT_CREATE || sysno == abi::SYS_ENDPOINT_SEND || sysno
        == abi::SYS_ENDPOINT_RECV || sysno == abi::SYS_ENDPOINT_CALL || sysno
        == abi::SYS_ENDPOINT_REPLY || sysno == abi::SYS_ENDPOINT_REPLY_RECV || sysno
        == abi::SYS_ENDPOINT_DESTROY {
        return endpoint_svc(m, cx, frame);
    }
    if sysno == abi::SYS_NOTIFICATION_CREATE || sysno == abi::SYS_NOTIFICATION_SIGNAL || sysno
        == abi::SYS_NOTIFICATION_WAIT || sysno == abi::SYS_NOTIFICATION_POLL || sysno
        == abi::SYS_NOTIFICATION_DESTROY {
        return notification_svc(m, cx, frame);
    }
    if sysno == abi::SYS_VSPACE_CREATE || sysno == abi::SYS_VSPACE_DESTROY || sysno
        == abi::SYS_FRAME_MAP_TO || sysno == abi::SYS_THREAD_CREATE_IN || sysno
        == abi::SYS_THREAD_START || sysno == abi::SYS_THREAD_SUSPEND || sysno
        == abi::SYS_THREAD_DESTROY {
        return builder_svc(m, cx, frame);
    }
    match handle_svc(
        m,
        cx,
        sysno,
        frame.x[0],
        frame.x[1],
        frame.x[2],
        frame.x[3],
        frame.x[4],
    ) {
        Svc::Value(value) => finish(frame, value),
        Svc::Exit(code) => Dispatch::Exit(code),
        Svc::Halt => Dispatch::Halt,
    }
}

/// The exception class of a syndrome register.
pub open spec fn exception_class(esr: u64) -> u64 {
    (esr / 0x400_0000) % 64
}

/// Class of an SVC instruction in AArch64 state.
pub const EC_SVC: u64 = 0x15;

/// Class of an HVC instruction in AArch64 state.
pub const EC_HVC: u64 = 0x16;

/// Exit code of a task that took a synchronous exception other than a system call.
pub const EXIT_FAULT: u64 = 0x400;

/// The exception class in bits 26 to 31 of a syndrome register.
pub fn class_of(esr: u64) -> (r: u64)
    ensures
        r == exception_class(esr),
{
    (esr / 0x400_0000) % 64
}

/// A synchronous exception from EL0: a system call is carried out, anything else ends the task.
pub fn el1_sync_handler_frame(m: &mut Machine, cx: &Entry, esr: u64, frame: &mut TrapFrame) -> (r:
    Dispatch)
    requires
        old(m)@.wf(),
        old(m)@.k.threads.runs(cx.cpu as int),
    ensures
        (final(m)@, *final(frame), r) == if exception_class(esr) == EC_SVC {
            old(m)@.svc_frame(*cx, *old(frame))
        } else {
            (old(m)@, *old(frame), Dispatch::Exit(EXIT_FAULT))
        },
        final(m)@.wf(),
{
    if class_of(esr) != EC_SVC {
        return Dispatch::Exit(EXIT_FAULT);
    }
    handle_svc_frame(m, cx, frame)
}

/// A synchronous exception at EL2: only an HVC returns, to the instruction after it.
pub fn el2_sync_handler(esr: u64) -> (r: Dispatch)
    ensures
        r == if exception_class(esr) == EC_HVC {
            Dispatch::Return
        } else {
            Dispatch::Halt
        },
{
    if class_of(esr) == EC_HVC {
        Dispatch::Return
    } else {
        Dispatch::Halt
    }
}

impl MachineView {
    /// A processor looks for another thread after an interrupt: at EL0 a higher one preempts,
    /// at EL1 the processor was idle.
    pub open spec fn look_again(self, cx: Entry, frame: TrapFrame) -> (MachineView, Dispatch) {
        if frame.spsr_el1 % 16 == 0 {
            self.preempt_if_needed(cx, frame)
        } else {
            self.activate_if_idle(cx)
        }
    }

    /// A device interrupt that the task has bound: it is disabled until the task acknowledges,
    /// and its badge is signalled.
    pub open spec fn device_irq(self, cx: Entry, token: u32, i: int, frame: TrapFrame) -> (
        MachineView,
        Dispatch,
    ) {
        let binding = self.k.task.irq_bindings@[i];
        let quiet = self.with_ops(self.k.gic.disable_ops(token % 1024)).with_ops(
            self.k.gic.eoir_ops(token),
        );
        quiet.with_task(quiet.k.task.with_awaiting(i, true)).signal(
            cx,
            binding.notification,
            binding.badge,
        ).0.look_again(cx, frame)
    }

    /// An interrupt, of which the acknowledge register read `raw`.
    pub open spec fn irq(self, cx: Entry, raw: u32, frame: TrapFrame) -> (MachineView, Dispatch) {
        let line = raw % 1024;
        let ended = self.with_ops(self.k.gic.eoir_ops(raw));
        if !self.k.gic.is_ready() || line >= 1020 {
            (self, Dispatch::Return)
        } else if line == gic::SGI_RESCHEDULE {
            ended.look_again(cx, frame)
        } else if line == gic::SGI_TLB_SHOOTDOWN {
            (self.op(HwOp::FlushTlb).with_ops(self.k.gic.eoir_ops(raw)), Dispatch::Return)
        } else if line == gic::SGI_TASK_STOP {
            (ended.parked(cx), Dispatch::Park)
        } else if self.k.timer.intid != 0 && self.k.timer.intid == line {
            let stopped = self.disarm().with_ops(self.k.gic.eoir_ops(raw));
            if frame.spsr_el1 % 16 == 0 {
                stopped.yield_current(cx, frame)
            } else {
                (stopped, Dispatch::Return)
            }
        } else {
            match self.k.task.binding(line, 0) {
                Some(i) => self.device_irq(cx, raw, i, frame),
                None => (ended, Dispatch::Return),
            }
        }
    }

    /// This processor has stopped its timer and left the task for good.
    pub open spec fn parked(self, cx: Entry) -> MachineView {
        let s = self.disarm();
        MachineView {
            k: Kernel {
                smp: smp::Smp {
                    stopped_mask: s.k.smp.stopped_mask | (1u64 << cx.cpu),
                    ..s.k.smp
                },
                ..s.k
            },
            ..s
        }.op(HwOp::Barrier).op(HwOp::Sev)
    }
}

fn look_again(m: &mut Machine, cx: &Entry, frame: &TrapFrame) -> (r: Dispatch)
    requires
        old(m)@.wf(),
        cx.cpu < 4,
        frame.spsr_el1 % 16 == 0 ==> old(m)@.k.threads.runs(cx.cpu as int),
    ensures
        (final(m)@, r) == old(m)@.look_again(*cx, *frame),
        final(m)@.wf(),
{
    if from_el0(frame) {
        priority::preempt_if_needed(m, cx, frame)
    } else {
        priority::activate_if_idle(m, cx)
    }
}

/// Whether the mode bits of the saved state say EL0.
fn from_el0(frame: &TrapFrame) -> (r: bool)
    ensures
        r == (frame.spsr_el1 % 16 == 0),
{
    frame.spsr_el1 % 16 == 0
}

/// Stops this processor at the end of the task: it touches no user memory from here on.
pub fn acknowledge_stop_and_park(m: &mut Machine, cx: &Entry) -> (r: Dispatch)
    requires
        old(m)@.wf(),
        cx.cpu < 4,
    ensures
        final(m)@ == old(m)@.parked(*cx),
        final(m)@.wf(),
        r == Dispatch::Park,
{
    timer::disarm(&m.k.timer, &mut m.ops);
    smp::acknowledge_stop(&mut m.k.smp, cx.cpu);
    m.ops.push(HwOp::Barrier);
    m.ops.push(HwOp::Sev);
    Dispatch::Park
}

/// Handles the interrupt of which the acknowledge register read `raw_iar`. Processor events are
/// ended before the scheduler runs; a bound device interrupt is disabled, ended and signalled.
pub fn el1_irq_handler_frame(m: &mut Machine, cx: &Entry, raw_iar: u32, frame: &TrapFrame) -> (r:
    Dispatch)
    requires
        old(m)@.wf(),
        cx.cpu < 4,
        frame.spsr_el1 % 16 == 0 ==> old(m)@.k.threads.runs(cx.cpu as int),
    ensures
        (final(m)@, r) == old(m)@.irq(*cx, raw_iar, *frame),
        final(m)@.wf(),
{
    let iar_token: u32 = match gic::acknowledge(&m.k.gic, raw_iar) {
        None => {
            return Dispatch::Return;
        },
        Some(token) => token,
    };
    let intid: u32 = gic::intid(iar_token);
    if intid == gic::SGI_RESCHEDULE {
        gic::write_eoir(&m.k.gic, &mut m.ops, iar_token);
        return look_again(m, cx, frame);
    }
    if intid == gic::SGI_TLB_SHOOTDOWN {
        mmu::flush_el1_tlb(m);
        gic::write_eoir(&m.k.gic, &mut m.ops, iar_token);
        return Dispatch::Return;
    }
    if intid == gic::SGI_TASK_STOP {
        gic::write_eoir(&m.k.gic, &mut m.ops, iar_token);
        return acknowledge_stop_and_park(m, cx);
    }
    if timer::is_timer_irq(&m.k.timer, intid) {
        timer::disarm(&m.k.timer, &mut m.ops);
        gic::write_eoir(&m.k.gic, &mut m.ops, iar_token);
        if from_el0(frame) {
            return priority::on_timer(m, cx, frame);
        }
        return Dispatch::Return;
    }
    if !task::has_binding(&m.k.task, intid) {
        gic::write_eoir(&m.k.gic, &mut m.ops, iar_token);
        return Dispatch::Return;
    }
    gic::disable_spi(&m.k.gic, &mut m.ops, intid);
    match task::irq_notification(&m.k.task, intid) {
        Some((notification, badge)) => {
            gic::write_eoir(&m.k.gic, &mut m.ops, iar_token);
            task::record_irq_pending(&mut m.k.task, intid);
            let _ = ipc::notification_signal(m, cx, notification, badge);
            look_again(m, cx, frame)
        },
        None => {
            gic::write_eoir(&m.k.gic, &mut m.ops, iar_token);
            Dispatch::Return
        },
    }
}

} // verus!
