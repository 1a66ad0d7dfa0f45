//! The interrupt controller as the monitor uses it: one processor, and one interrupt that the
//! task may bind.
use crate::hw::HwOp;
use crate::interrupt::gic::{self, Gic};
use vstd::prelude::*;

verus! {

#[derive(Clone, Copy, Debug, PartialEq, Eq, Structural)]
pub struct MonitorGic {
    pub gic: Gic,
    /// The console's interrupt; zero before it is known.
    pub uart_intid: u32,
}

impl MonitorGic {
    /// Operations that end an interrupt.
    pub open spec fn end_ops(self, token: u32) -> Seq<HwOp> {
        if self.gic.is_ready() {
            seq![HwOp::CpuWrite { offset: gic::GICC_EOIR, value: token }, HwOp::Barrier]
        } else {
            seq![]
        }
    }
}

/// Records where the register blocks are and opens distributor and CPU interface.
pub fn init(g: &mut MonitorGic, ops: &mut Vec<HwOp>, gicd_pa: u64, gicc_pa: u64)
    ensures
        *final(g) == (MonitorGic {
            gic: Gic { dist_base: gicd_pa, cpu_base: gicc_pa },
            ..*old(g)
        }),
        final(ops)@ == old(ops)@ + seq![
            HwOp::DistModify { offset: gic::GICD_CTLR, clear: 0, set: 1 },
            HwOp::CpuWrite { offset: gic::GICC_PMR, value: 0xff },
            HwOp::CpuModify { offset: gic::GICC_CTLR, clear: 0, set: 1 },
            HwOp::Barrier,
        ],
{
    g.gic = Gic { dist_base: gicd_pa, cpu_base: gicc_pa };
    ops.push(HwOp::DistModify { offset: gic::GICD_CTLR, clear: 0, set: 1 });
    ops.push(HwOp::CpuWrite { offset: gic::GICC_PMR, value: 0xff });
    ops.push(HwOp::CpuModify { offset: gic::GICC_CTLR, clear: 0, set: 1 });
    ops.push(HwOp::Barrier);
}

/// Names the one interrupt that the task may bind.
pub fn authorize_uart_irq(g: &mut MonitorGic, intid: u32)
    ensures
        *final(g) == (MonitorGic { uart_intid: intid, ..*old(g) }),
{
    g.uart_intid = intid;
}

pub fn is_authorized(g: &MonitorGic, intid: u32) -> (r: bool)
    ensures
        r == (g.uart_intid != 0 && g.uart_intid == intid),
{
    g.uart_intid != 0 && g.uart_intid == intid
}

/// Prepares a shared interrupt for the first processor and leaves it disabled.
pub fn configure_spi(g: &MonitorGic, ops: &mut Vec<HwOp>, intid: u32, trigger_level: bool)
    ensures
        final(ops)@ == old(ops)@ + g.gic.configure_ops(intid, trigger_level, 0),
{
    gic::configure_spi(&g.gic, ops, intid, trigger_level, 0);
}

/// Ends the interrupt that `iar_token` acknowledged.
pub fn write_eoir(g: &MonitorGic, ops: &mut Vec<HwOp>, iar_token: u32)
    ensures
        final(ops)@ == old(ops)@ + g.end_ops(iar_token),
{
    if g.gic.dist_base == 0 || g.gic.cpu_base == 0 {
        assert(ops@ =~= old(ops)@ + g.end_ops(iar_token));
        return;
    }
    ops.push(HwOp::CpuWrite { offset: gic::GICC_EOIR, value: iar_token });
    ops.push(HwOp::Barrier);
    assert(ops@ =~= old(ops)@ + g.end_ops(iar_token));
}

} // verus!
