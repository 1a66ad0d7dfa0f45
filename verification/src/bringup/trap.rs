//! System calls of the monitor.
use crate::bringup::protect::{self, Regions};
use crate::hw::HwOp;
use crate::machine::{Fault, Machine, MachineView};
use crate::memory::mmu;
use crate::syscall::dispatch::{class_of, EC_SVC};
use vstd::prelude::*;

verus! {

pub const SYS_PUTC: u64 = 1;

pub const SYS_PUTS: u64 = 2;

pub const SYS_EXIT: u64 = 5;

pub const SYS_MAP_MMIO: u64 = 6;

/// Saved state for EL1 with its own stack pointer and all interrupts masked.
pub const SPSR_EL1H: u64 = 0x3c5;

/// What the boot shim writes before it enters the monitor at EL1.
#[derive(Clone, Copy, Debug, PartialEq, Eq, Structural)]
pub struct El1Entry {
    pub hcr_el2: u64,
    pub sctlr_el1: u64,
    pub elr_el2: u64,
    pub spsr_el2: u64,
    pub sp_el1: u64,
    pub sp_el0: u64,
    pub x0: u64,
    pub x1: u64,
}

/// What the monitor writes before it enters the task at EL0.
#[derive(Clone, Copy, Debug, PartialEq, Eq, Structural)]
pub struct El0Entry {
    pub elr_el1: u64,
    pub spsr_el1: u64,
    pub sp_el0: u64,
    pub x0: u64,
}

/// For the monitor at EL1: it runs in AArch64 state (bit 31) and takes exceptions itself (bit 27
/// clear). Alignment checks are off; translation and the rest stay as firmware left them. The
/// first two arguments are the registers as they are.
pub fn enter_el1_kernel(
    hcr: u64,
    sctlr: u64,
    entry_pc: u64,
    stack_top: u64,
    boot_info_ptr: u64,
    next_pc: u64,
) -> (r: El1Entry)
    ensures
        r == (El1Entry {
            hcr_el2: (hcr | 0x8000_0000) & !0x0800_0000u64,
            sctlr_el1: sctlr & !0x1au64,
            elr_el2: entry_pc,
            spsr_el2: SPSR_EL1H,
            sp_el1: stack_top,
            sp_el0: stack_top,
            x0: boot_info_ptr,
            x1: next_pc,
        }),
        r.hcr_el2 & 0x8000_0000 != 0,
        r.hcr_el2 & 0x0800_0000 == 0,
{
    assert(((hcr | 0x8000_0000) & !0x0800_0000u64) & 0x8000_0000 != 0 && ((hcr | 0x8000_0000)
        & !0x0800_0000u64) & 0x0800_0000 == 0) by (bit_vector);
    El1Entry {
        hcr_el2: (hcr | 0x8000_0000) & !0x0800_0000u64,
        sctlr_el1: sctlr & !0x1au64,
        elr_el2: entry_pc,
        spsr_el2: SPSR_EL1H,
        sp_el1: stack_top,
        sp_el0: stack_top,
        x0: boot_info_ptr,
        x1: next_pc,
    }
}

/// For a task at EL0: where it starts, with its stack and its argument.
pub fn enter_el0(entry_pc: u64, stack_top: u64, arg0: u64) -> (r: El0Entry)
    ensures
        r == (El0Entry { elr_el1: entry_pc, spsr_el1: 0, sp_el0: stack_top, x0: arg0 }),
{
    El0Entry { elr_el1: entry_pc, spsr_el1: 0, sp_el0: stack_top, x0: arg0 }
}

/// What the monitor does after a trap.
#[derive(Clone, Copy, Debug, PartialEq, Eq, Structural)]
pub enum Outcome {
    /// Return this value to the task.
    Value(u64),
    /// Send one byte to the console and return zero.
    Put(u8),
    /// The task is over with this code.
    Exit(u64),
    /// Stop: an exception that is no system call, or a fault of the monitor.
    Stop,
}

impl MachineView {
    /// A device range is mapped for the task. Its first address must lie in a device window; a
    /// window need not fill its last page. A range that leaves the address space is refused.
    pub open spec fn monitor_map(self, regions: Regions, paddr: u64, size: u64, user_va: u64) -> (
        MachineView,
        Result<u64, Fault>,
    ) {
        let pages = crate::util::round_up(size as int, 4096) / 4096;
        if paddr % 4096 != 0 || user_va % 4096 != 0 || size == 0 {
            (self, Ok(1))
        } else if regions.owner_of(paddr, 0) is None {
            (self, Ok(2))
        } else if self.k.active_table == 0 {
            (self, Ok(3))
        } else if size + 4095 > u64::MAX || user_va + pages * 4096 > 0x1_0000_0000_0000_0000
            || paddr + pages * 4096 > 0x1_0000_0000_0000_0000 {
            (self, Ok(1))
        } else {
            let (s, fault) = self.map_run(
                self.k.active_table,
                user_va as int,
                paddr as int,
                mmu::MMU_USER_DEV,
                pages,
            );
            match fault {
                Some(fault) => (s, Err(fault)),
                None => (s.op(HwOp::FlushTlb), Ok(0)),
            }
        }
    }

    pub open spec fn monitor_svc(self, regions: Regions, sysno: u64, a: u64, b: u64, c: u64) -> (
        MachineView,
        Outcome,
    ) {
        if sysno == SYS_PUTC {
            (self, Outcome::Put((a % 256) as u8))
        } else if sysno == SYS_PUTS {
            (self.op(HwOp::PutUser { va: a, len: b }), Outcome::Value(0))
        } else if sysno == SYS_MAP_MMIO {
            let (s, r) = self.monitor_map(regions, a, b, c);
            match r {
                Ok(value) => (s, Outcome::Value(value)),
                Err(_) => (s, Outcome::Stop),
            }
        } else if sysno == SYS_EXIT {
            (self, Outcome::Exit(a))
        } else {
            (self, Outcome::Value(u64::MAX))
        }
    }
}

fn sys_map_mmio(m: &mut Machine, regions: &Regions, paddr: u64, size: u64, user_va: u64) -> (r:
    Result<u64, Fault>)
    requires
        old(m)@.wf(),
        regions.wf(),
    ensures
        (final(m)@, r) == old(m)@.monitor_map(*regions, paddr, size, user_va),
        final(m)@.wf(),
{
    if paddr % 4096 != 0 || user_va % 4096 != 0 || size == 0 {
        return Ok(1);
    }
    if protect::lookup(regions, paddr).is_none() {
        return Ok(2);
    }
    let root: u64 = mmu::active_table(m);
    if root == 0 {
        return Ok(3);
    }
    proof {
        crate::util::lemma_round_up(size as int, 4096);
    }
    let pages: u64 = match size.checked_add(4095) {
        None => {
            return Ok(1);
        },
        Some(padded) => padded / 4096,
    };
    if user_va.checked_add(pages * 4096 - 1).is_none() || paddr.checked_add(
        pages * 4096 - 1,
    ).is_none() {
        return Ok(1);
    }
    if let Err(fault) = mmu::map(m, root, user_va, paddr, mmu::MMU_USER_DEV, pages) {
        return Err(fault);
    }
    mmu::flush_el1_tlb(m);
    Ok(0)
}

/// Carries out a system call of the task.
pub fn handle_svc(m: &mut Machine, regions: &Regions, sysno: u64, arg0: u64, arg1: u64, arg2: u64)
    -> (r: Outcome)
    requires
        old(m)@.wf(),
        regions.wf(),
    ensures
        (final(m)@, r) == old(m)@.monitor_svc(*regions, sysno, arg0, arg1, arg2),
        final(m)@.wf(),
{
    if sysno == SYS_PUTC {
        Outcome::Put((arg0 % 256) as u8)
    } else if sysno == SYS_PUTS {
        m.ops.push(HwOp::PutUser { va: arg0, len: arg1 });
        Outcome::Value(0)
    } else if sysno == SYS_MAP_MMIO {
        match sys_map_mmio(m, regions, arg0, arg1, arg2) {
            Ok(value) => Outcome::Value(value),
            Err(_) => Outcome::Stop,
        }
    } else if sysno == SYS_EXIT {
        Outcome::Exit(arg0)
    } else {
        Outcome::Value(0xffff_ffff_ffff_ffff)
    }
}

/// A synchronous exception of the task: a system call is carried out, anything else stops the
/// monitor.
pub fn el1_sync_handler(
    m: &mut Machine,
    regions: &Regions,
    esr: u64,
    arg0: u64,
    arg1: u64,
    arg2: u64,
    sysno: u64,
) -> (r: Outcome)
    requires
        old(m)@.wf(),
        regions.wf(),
    ensures
        (final(m)@, r) == if crate::syscall::dispatch::exception_class(esr) == EC_SVC {
            old(m)@.monitor_svc(*regions, sysno, arg0, arg1, arg2)
        } else {
            (old(m)@, Outcome::Stop)
        },
        final(m)@.wf(),
{
    if class_of(esr) == EC_SVC {
        handle_svc(m, regions, sysno, arg0, arg1, arg2)
    } else {
        Outcome::Stop
    }
}

/// The task goes on behind its system call instruction.
pub fn resume_pc(elr: u64) -> (r: u64)
    ensures
        r == elr.wrapping_add(4),
{
    elr.wrapping_add(4)
}

} // verus!
