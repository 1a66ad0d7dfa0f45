//! GICv2 interrupt controller: which register writes each request takes.
//!
//! Two register blocks: the distributor configures, enables and prioritizes; the CPU
//! interface acknowledges and ends interrupts. Nothing is written before both are known.
use crate::hw::HwOp;
use vstd::prelude::*;

verus! {

pub const GICD_CTLR: u64 = 0x000;

pub const GICD_IGROUPR: u64 = 0x080;

pub const GICD_ISENABLER: u64 = 0x100;

pub const GICD_ICENABLER: u64 = 0x180;

pub const GICD_ICPENDR: u64 = 0x280;

pub const GICD_ICACTIVER: u64 = 0x380;

pub const GICD_IPRIORITYR: u64 = 0x400;

pub const GICD_ITARGETSR: u64 = 0x800;

pub const GICD_ICFGR: u64 = 0xc00;

pub const GICD_SGIR: u64 = 0xf00;

pub const SGI_RESCHEDULE: u32 = 0;

pub const SGI_TLB_SHOOTDOWN: u32 = 1;

pub const SGI_TASK_STOP: u32 = 2;

pub const GICC_CTLR: u64 = 0x00;

pub const GICC_PMR: u64 = 0x04;

pub const GICC_IAR: u64 = 0x0c;

pub const GICC_EOIR: u64 = 0x10;

pub const GICC_DIR: u64 = 0x1000;

/// What the acknowledge register reads when no interrupt is pending.
pub const SPURIOUS: u32 = 1023;

/// Addresses of the two register blocks; zero until they were discovered.
#[derive(Clone, Copy, Debug, PartialEq, Eq, Structural)]
pub struct Gic {
    pub dist_base: u64,
    pub cpu_base: u64,
}

impl Gic {
    pub open spec fn is_ready(self) -> bool {
        self.dist_base != 0 && self.cpu_base != 0
    }

    /// Distributor byte field of interrupt `intid` in the register array at `array`.
    pub open spec fn byte_register(array: u64, intid: u32) -> u64 {
        (array + 4 * (intid / 4)) as u64
    }

    /// Distributor bit register of interrupt `intid` in the register array at `array`.
    pub open spec fn bit_register(array: u64, intid: u32) -> u64 {
        (array + 4 * (intid / 32)) as u64
    }

    /// Operations of `init_cpu_interface`.
    pub open spec fn cpu_interface_ops() -> Seq<HwOp> {
        seq![
            HwOp::DistWrite { offset: GICD_ICPENDR, value: 0xffff_ffff },
            HwOp::DistWrite { offset: GICD_ICACTIVER, value: 0xffff_ffff },
            HwOp::DistWrite { offset: GICD_ISENABLER, value: 7 },
            HwOp::CpuWrite { offset: GICC_PMR, value: 0xff },
            HwOp::CpuModify { offset: GICC_CTLR, clear: 0, set: 0x601 },
            HwOp::Barrier,
        ]
    }

    /// Operations of `enable_spi`.
    pub open spec fn enable_ops(self, intid: u32) -> Seq<HwOp> {
        if !self.is_ready() || intid < 32 {
            seq![]
        } else {
            seq![
                HwOp::DistWrite {
                    offset: Gic::bit_register(GICD_ISENABLER, intid),
                    value: 1u32 << (intid % 32),
                },
                HwOp::Barrier,
            ]
        }
    }

    /// Operations of `disable_spi`.
    pub open spec fn disable_ops(self, intid: u32) -> Seq<HwOp> {
        if !self.is_ready() || intid < 32 {
            seq![]
        } else {
            seq![
                HwOp::DistWrite {
                    offset: Gic::bit_register(GICD_ICENABLER, intid),
                    value: 1u32 << (intid % 32),
                },
                HwOp::Barrier,
            ]
        }
    }

    /// Operations of `configure_spi`.
    pub open spec fn configure_ops(self, intid: u32, trigger_level: bool, target_cpu: usize) -> Seq<
        HwOp,
    > {
        if !self.is_ready() || intid < 32 || target_cpu >= 4 {
            seq![]
        } else {
            let shift = 8 * (intid % 4);
            let cfg_shift = 2 * (intid % 16);
            self.disable_ops(intid) + seq![
                HwOp::DistWrite {
                    offset: Gic::bit_register(GICD_ICPENDR, intid),
                    value: 1u32 << (intid % 32),
                },
                HwOp::DistModify {
                    offset: Gic::byte_register(GICD_IPRIORITYR, intid),
                    clear: 0xffu32 << shift,
                    set: 0x80u32 << shift,
                },
                HwOp::DistModify {
                    offset: Gic::byte_register(GICD_ITARGETSR, intid),
                    clear: 0xffu32 << shift,
                    set: (1u32 << target_cpu) << shift,
                },
                HwOp::DistModify {
                    offset: (GICD_ICFGR + 4 * (intid / 16)) as u64,
                    clear: 3u32 << cfg_shift,
                    set: (if trigger_level {
                        0u32
                    } else {
                        2u32
                    }) << cfg_shift,
                },
                HwOp::Barrier,
            ]
        }
    }

    /// Operations of `send_sgi`.
    pub open spec fn sgi_ops(self, intid: u32, target_mask: u8) -> Seq<HwOp> {
        if !self.is_ready() || intid > 15 || target_mask == 0 {
            seq![]
        } else {
            seq![
                HwOp::StoreBarrier,
                HwOp::DistWrite {
                    offset: GICD_SGIR,
                    value: (target_mask as u32) << 16 | (intid & 0xf),
                },
                HwOp::Barrier,
            ]
        }
    }

    /// Operations of `send_sgi_all_others`.
    pub open spec fn sgi_others_ops(self, intid: u32) -> Seq<HwOp> {
        if !self.is_ready() || intid > 15 {
            seq![]
        } else {
            seq![
                HwOp::StoreBarrier,
                HwOp::DistWrite { offset: GICD_SGIR, value: 0x100_0000u32 | (intid & 0xf) },
                HwOp::Barrier,
            ]
        }
    }

    /// `intid` is a private peripheral interrupt that can be configured.
    pub open spec fn private(self, intid: u32) -> bool {
        self.is_ready() && 16 <= intid < 32
    }

    /// One write of the bit of a private interrupt, and a barrier.
    pub open spec fn private_bit_ops(self, offset: u64, intid: u32) -> Seq<HwOp> {
        if !self.private(intid) {
            seq![]
        } else {
            seq![HwOp::DistWrite { offset, value: 1u32 << intid }, HwOp::Barrier]
        }
    }

    /// Operations of `configure_private`.
    pub open spec fn configure_private_ops(self, intid: u32, priority: u8) -> Seq<HwOp> {
        if !self.private(intid) {
            seq![]
        } else {
            let shift = 8 * (intid % 4);
            self.private_bit_ops(GICD_ICENABLER, intid) + seq![
                HwOp::DistModify { offset: GICD_IGROUPR, clear: 1u32 << intid, set: 0 },
                HwOp::DistWrite { offset: GICD_ICPENDR, value: 1u32 << intid },
                HwOp::DistModify {
                    offset: Gic::byte_register(GICD_IPRIORITYR, intid),
                    clear: 0xffu32 << shift,
                    set: (priority as u32) << shift,
                },
                HwOp::Barrier,
            ]
        }
    }

    /// Operations of `write_eoir`.
    pub open spec fn eoir_ops(self, token: u32) -> Seq<HwOp> {
        if !self.is_ready() {
            seq![]
        } else {
            let ended = seq![
                HwOp::CpuWrite { offset: GICC_EOIR, value: token },
                HwOp::CpuWrite { offset: GICC_DIR, value: token },
            ];
            let deactivated = if (token & 0x3ff) < 32 {
                ended.push(
                    HwOp::DistWrite { offset: GICD_ICACTIVER, value: 1u32 << (token & 0x3ff) },
                )
            } else {
                ended
            };
            deactivated.push(HwOp::Barrier)
        }
    }
}

fn ready(gic: &Gic) -> (r: bool)
    ensures
        r == gic.is_ready(),
{
    gic.dist_base != 0 && gic.cpu_base != 0
}

/// Records where the register blocks are, then enables the distributor and this CPU interface.
pub fn init(gic: &mut Gic, ops: &mut Vec<HwOp>, gicd_pa: u64, gicc_pa: u64)
    ensures
        *final(gic) == (Gic { dist_base: gicd_pa, cpu_base: gicc_pa }),
        final(ops)@ == old(ops)@ + seq![
            HwOp::DistModify { offset: GICD_CTLR, clear: 0, set: 1 },
        ] + Gic::cpu_interface_ops() + seq![HwOp::Barrier],
{
    gic.dist_base = gicd_pa;
    gic.cpu_base = gicc_pa;
    ops.push(HwOp::DistModify { offset: GICD_CTLR, clear: 0, set: 1 });
    init_cpu_interface(ops);
    ops.push(HwOp::Barrier);
}

/// Opens the CPU interface of the current processor, whose registers are banked: clears what
/// firmware left pending or active, enables the three kernel SGIs, accepts every priority and
/// selects two-step interrupt completion.
pub fn init_cpu_interface(ops: &mut Vec<HwOp>)
    ensures
        final(ops)@ == old(ops)@ + Gic::cpu_interface_ops(),
{
    ops.push(HwOp::DistWrite { offset: GICD_ICPENDR, value: 0xffff_ffff });
    ops.push(HwOp::DistWrite { offset: GICD_ICACTIVER, value: 0xffff_ffff });
    ops.push(HwOp::DistWrite { offset: GICD_ISENABLER, value: 7 });
    ops.push(HwOp::CpuWrite { offset: GICC_PMR, value: 0xff });
    ops.push(HwOp::CpuModify { offset: GICC_CTLR, clear: 0, set: 0x601 });
    ops.push(HwOp::Barrier);
}

/// Sets priority, target processor and trigger of a shared interrupt and leaves it disabled.
pub fn configure_spi(
    gic: &Gic,
    ops: &mut Vec<HwOp>,
    intid: u32,
    trigger_level: bool,
    target_cpu: usize,
)
    ensures
        final(ops)@ == old(ops)@ + gic.configure_ops(intid, trigger_level, target_cpu),
{
    if !ready(gic) || intid < 32 || target_cpu >= crate::abi::MAX_CPUS {
        return;
    }
    disable_spi(gic, ops, intid);
    let bit: u32 = intid % 32;
    ops.push(
        HwOp::DistWrite {
            offset: GICD_ICPENDR + 4 * (intid as u64 / 32),
            value: 1u32 << bit,
        },
    );
    let shift: u32 = 8 * (intid % 4);
    ops.push(
        HwOp::DistModify {
            offset: GICD_IPRIORITYR + 4 * (intid as u64 / 4),
            clear: 0xffu32 << shift,
            set: 0x80u32 << shift,
        },
    );
    ops.push(
        HwOp::DistModify {
            offset: GICD_ITARGETSR + 4 * (intid as u64 / 4),
            clear: 0xffu32 << shift,
            set: (1u32 << target_cpu) << shift,
        },
    );
    let cfg_shift: u32 = 2 * (intid % 16);
    let cfg: u32 = if trigger_level {
        0
    } else {
        2
    };
    ops.push(
        HwOp::DistModify {
            offset: GICD_ICFGR + 4 * (intid as u64 / 16),
            clear: 3u32 << cfg_shift,
            set: cfg << cfg_shift,
        },
    );
    ops.push(HwOp::Barrier);
}

/// Sends a kernel SGI to the processors in `target_mask`.
pub fn send_sgi(gic: &Gic, ops: &mut Vec<HwOp>, intid: u32, target_mask: u8)
    ensures
        final(ops)@ == old(ops)@ + gic.sgi_ops(intid, target_mask),
{
    if !ready(gic) || intid > 15 || target_mask == 0 {
        return;
    }
    ops.push(HwOp::StoreBarrier);
    ops.push(
        HwOp::DistWrite { offset: GICD_SGIR, value: ((target_mask as u32) << 16) | (intid & 0xf) },
    );
    ops.push(HwOp::Barrier);
}

/// Sends a kernel SGI to every processor but this one.
pub fn send_sgi_all_others(gic: &Gic, ops: &mut Vec<HwOp>, intid: u32)
    ensures
        final(ops)@ == old(ops)@ + gic.sgi_others_ops(intid),
{
    if !ready(gic) || intid > 15 {
        return;
    }
    ops.push(HwOp::StoreBarrier);
    ops.push(HwOp::DistWrite { offset: GICD_SGIR, value: 0x100_0000u32 | (intid & 0xf) });
    ops.push(HwOp::Barrier);
}

/// Sets the priority of a private peripheral interrupt and clears its pending bit.
pub fn configure_private(gic: &Gic, ops: &mut Vec<HwOp>, intid: u32, priority: u8)
    ensures
        final(ops)@ == old(ops)@ + gic.configure_private_ops(intid, priority),
{
    if !ready(gic) || !(16 <= intid && intid < 32) {
        return;
    }
    disable_private(gic, ops, intid);
    ops.push(HwOp::DistModify { offset: GICD_IGROUPR, clear: 1u32 << intid, set: 0 });
    ops.push(HwOp::DistWrite { offset: GICD_ICPENDR, value: 1u32 << intid });
    let shift: u32 = 8 * (intid % 4);
    ops.push(
        HwOp::DistModify {
            offset: GICD_IPRIORITYR + 4 * (intid as u64 / 4),
            clear: 0xffu32 << shift,
            set: (priority as u32) << shift,
        },
    );
    ops.push(HwOp::Barrier);
}

pub fn enable_private(gic: &Gic, ops: &mut Vec<HwOp>, intid: u32)
    ensures
        final(ops)@ == old(ops)@ + gic.private_bit_ops(GICD_ISENABLER, intid),
{
    if !ready(gic) || !(16 <= intid && intid < 32) {
        return;
    }
    ops.push(HwOp::DistWrite { offset: GICD_ISENABLER, value: 1u32 << intid });
    ops.push(HwOp::Barrier);
}

pub fn disable_private(gic: &Gic, ops: &mut Vec<HwOp>, intid: u32)
    ensures
        final(ops)@ == old(ops)@ + gic.private_bit_ops(GICD_ICENABLER, intid),
{
    if !ready(gic) || !(16 <= intid && intid < 32) {
        return;
    }
    ops.push(HwOp::DistWrite { offset: GICD_ICENABLER, value: 1u32 << intid });
    ops.push(HwOp::Barrier);
}

/// Clears the pending bit of a private interrupt of this processor.
pub fn clear_private_pending(gic: &Gic, ops: &mut Vec<HwOp>, intid: u32)
    ensures
        final(ops)@ == old(ops)@ + gic.private_bit_ops(GICD_ICPENDR, intid),
{
    if !ready(gic) || !(16 <= intid && intid < 32) {
        return;
    }
    ops.push(HwOp::DistWrite { offset: GICD_ICPENDR, value: 1u32 << intid });
    ops.push(HwOp::Barrier);
}

/// Enables a shared interrupt in the distributor.
pub fn enable_spi(gic: &Gic, ops: &mut Vec<HwOp>, intid: u32)
    ensures
        final(ops)@ == old(ops)@ + gic.enable_ops(intid),
{
    if !ready(gic) || intid < 32 {
        return;
    }
    let bit: u32 = intid % 32;
    ops.push(
        HwOp::DistWrite {
            offset: GICD_ISENABLER + 4 * (intid as u64 / 32),
            value: 1u32 << bit,
        },
    );
    ops.push(HwOp::Barrier);
}

/// Disables a shared interrupt in the distributor.
pub fn disable_spi(gic: &Gic, ops: &mut Vec<HwOp>, intid: u32)
    ensures
        final(ops)@ == old(ops)@ + gic.disable_ops(intid),
{
    if !ready(gic) || intid < 32 {
        return;
    }
    let bit: u32 = intid % 32;
    ops.push(
        HwOp::DistWrite {
            offset: GICD_ICENABLER + 4 * (intid as u64 / 32),
            value: 1u32 << bit,
        },
    );
    ops.push(HwOp::Barrier);
}

/// The acknowledge register's value, `raw`, if the controller is known; else spurious.
pub fn read_iar(gic: &Gic, raw: u32) -> (r: u32)
    ensures
        r == if gic.is_ready() {
            raw
        } else {
            SPURIOUS
        },
{
    if !ready(gic) {
        return SPURIOUS;
    }
    raw
}

/// Ends the interrupt that `iar_token` acknowledged: priority drop, deactivation, and for a
/// banked interrupt the active bit as well.
pub fn write_eoir(gic: &Gic, ops: &mut Vec<HwOp>, iar_token: u32)
    ensures
        final(ops)@ == old(ops)@ + gic.eoir_ops(iar_token),
{
    if !ready(gic) {
        return;
    }
    ops.push(HwOp::CpuWrite { offset: GICC_EOIR, value: iar_token });
    ops.push(HwOp::CpuWrite { offset: GICC_DIR, value: iar_token });
    let finished_intid: u32 = intid(iar_token);
    if finished_intid < 32 {
        ops.push(HwOp::DistWrite { offset: GICD_ICACTIVER, value: 1u32 << finished_intid });
    }
    ops.push(HwOp::Barrier);
}

/// The whole token of the acknowledged interrupt, with the processor that sent a software
/// interrupt in it; none for the special interrupt numbers from 1020 on.
pub fn acknowledge(gic: &Gic, raw: u32) -> (r: Option<u32>)
    ensures
        r == if gic.is_ready() && raw % 1024 < 1020 {
            Some(raw)
        } else {
            None
        },
{
    let token: u32 = read_iar(gic, raw);
    if intid(token) >= 1020 {
        return None;
    }
    Some(token)
}

/// The interrupt number inside an acknowledge token.
pub fn intid(iar_token: u32) -> (r: u32)
    ensures
        r == iar_token % 1024,
        r == iar_token & 0x3ff,
{
    assert(iar_token & 0x3ff == iar_token % 1024) by (bit_vector);
    iar_token & 0x3ff
}

} // verus!
