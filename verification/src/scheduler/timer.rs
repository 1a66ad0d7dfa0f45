//! The generic timer that ends time slices.
use crate::hw::HwOp;
use crate::interrupt::gic::{self, Gic};
use vstd::prelude::*;

verus! {

/// One choice of timer and slice length for all processors, fixed at start-up.
#[derive(Clone, Copy, Debug, PartialEq, Eq, Structural)]
pub struct Timer {
    pub intid: u32,
    pub ticks_per_slice: u64,
    pub use_virtual: bool,
}

impl Timer {
    /// The low half of the slice length, as the 32-bit countdown register takes it.
    pub open spec fn countdown(self) -> u32 {
        self.ticks_per_slice as u32
    }

    pub open spec fn arm_op(self) -> HwOp {
        HwOp::ArmTimer { use_virtual: self.use_virtual, ticks: self.countdown() }
    }

    pub open spec fn disarm_op(self) -> HwOp {
        HwOp::DisarmTimer { use_virtual: self.use_virtual }
    }
}

/// Chooses the timer interrupt and sets the slice to one millisecond of `frequency`.
///
/// Refuses an interrupt that is not a private peripheral interrupt, and a zero frequency.
pub fn init(
    timer: &mut Timer,
    gic: &Gic,
    ops: &mut Vec<HwOp>,
    intid: u32,
    use_virtual: bool,
    frequency: u64,
) -> (r: bool)
    ensures
        r == (16 <= intid < 32 && frequency != 0),
        !r ==> *final(timer) == *old(timer) && final(ops)@ == old(ops)@,
        r ==> *final(timer) == (Timer {
            intid,
            ticks_per_slice: if frequency < 1000 {
                1
            } else {
                frequency / 1000
            },
            use_virtual,
        }),
        r ==> final(ops)@ == old(ops)@.push(final(timer).disarm_op())
            + gic.configure_private_ops(intid, 0x20) + gic.private_bit_ops(
            gic::GICD_ISENABLER,
            intid,
        ),
{
    if !(16 <= intid && intid < 32) {
        return false;
    }
    if frequency == 0 {
        return false;
    }
    timer.intid = intid;
    timer.use_virtual = use_virtual;
    let ticks: u64 = frequency / 1_000;
    timer.ticks_per_slice = if ticks < 1 {
        1
    } else {
        ticks
    };
    disarm(timer, ops);
    gic::configure_private(gic, ops, intid, 0x20);
    gic::enable_private(gic, ops, intid);
    true
}

pub fn is_timer_irq(timer: &Timer, intid: u32) -> (r: bool)
    ensures
        r == (timer.intid != 0 && timer.intid == intid),
{
    timer.intid != 0 && timer.intid == intid
}

/// Starts a full slice; the slice begins at the counter value `now`.
pub fn arm_full(timer: &Timer, ops: &mut Vec<HwOp>, now: u64) -> (r: u64)
    ensures
        r == now,
        final(ops)@ == old(ops)@.push(timer.arm_op()),
{
    ops.push(
        HwOp::ArmTimer { use_virtual: timer.use_virtual, ticks: timer.ticks_per_slice as u32 },
    );
    now
}

pub fn disarm(timer: &Timer, ops: &mut Vec<HwOp>)
    ensures
        final(ops)@ == old(ops)@.push(timer.disarm_op()),
{
    ops.push(HwOp::DisarmTimer { use_virtual: timer.use_virtual });
}

} // verus!
