//! Values of system registers for the way down from EL2 to EL1 and from EL1 to EL0.
use vstd::prelude::*;

verus! {

/// Saved state for EL1 with its own stack pointer and all interrupts masked.
pub const SPSR_EL1H: u64 = 0x3c5;

/// What the boot shim writes before it enters the kernel.
#[derive(Clone, Copy, Debug, PartialEq, Eq, Structural)]
pub struct El1Entry {
    pub hcr: u64,
    pub cnthctl: u64,
    pub sctlr: u64,
    pub spsr: u64,
}

/// What the kernel writes before it enters the task.
#[derive(Clone, Copy, Debug, PartialEq, Eq, Structural)]
pub struct El0Entry {
    pub cntkctl: u64,
    pub sctlr: u64,
    pub spsr: u64,
}

/// For the kernel at EL1: it runs in AArch64 state (bit 31), takes exceptions and physical
/// interrupts itself (bits 27, 20, 5, 4, 3 clear), and may use counter and timer. Alignment
/// checks are off; the rest stays as firmware left it.
pub fn enter_el1_kernel(hcr: u64, cnthctl: u64, sctlr: u64) -> (r: El1Entry)
    ensures
        r.hcr == (hcr | 0x8000_0000) & !0x0810_0038u64,
        r.hcr & 0x8000_0000 != 0,
        r.hcr & 0x0810_0038 == 0,
        r.cnthctl == cnthctl | 3,
        r.sctlr == sctlr & !0x1au64,
        r.spsr == SPSR_EL1H,
{
    assert(((hcr | 0x8000_0000) & !0x0810_0038u64) & 0x8000_0000 != 0 && ((hcr | 0x8000_0000)
        & !0x0810_0038u64) & 0x0810_0038 == 0) by (bit_vector);
    El1Entry {
        hcr: (hcr | 0x8000_0000) & !0x0810_0038u64,
        cnthctl: cnthctl | 3,
        sctlr: sctlr & !0x1au64,
        spsr: SPSR_EL1H,
    }
}

/// For a task at EL0: it may read the virtual counter (bit 1) and the cache type (bit 15
/// clear), and clean caches (bit 26).
pub fn enter_el0(cntkctl: u64, sctlr: u64) -> (r: El0Entry)
    ensures
        r.cntkctl == cntkctl | 2,
        r.sctlr == (sctlr & !0x8000u64) | 0x0400_0000,
        r.spsr == 0,
{
    El0Entry { cntkctl: cntkctl | 2, sctlr: (sctlr & !0x8000u64) | 0x0400_0000, spsr: 0 }
}

/// Translation control for 39-bit addresses in 4 KiB pages, inner shareable and cached.
pub const TCR_IDENTITY: u64 = 0x5_0000_3f19;

/// Memory types: normal cached at 0, device at 1.
pub const MAIR_IDENTITY: u64 = 0x04ff;

/// Translation and caches on, with the bits that always read as one.
pub const SCTLR_IDENTITY: u64 = 0x30d0_1805;

} // verus!
