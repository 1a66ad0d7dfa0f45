//! How a processor joins, and what its timer does from then on.
use crate::hw::HwOp;
use crate::interrupt::gic::{self, Gic};
use crate::interrupt::lines::{self, Distributor};
use crate::laws::choices::{self, enterable, most_urgent, taken_over};
use crate::machine::{Dispatch, Entry, MachineView};
use vstd::prelude::*;

verus! {

/// A slice is a millisecond of the timer's frequency, rounded down to whole ticks, and one tick at
/// least. The timer that ends it is the one that was chosen. Only a private interrupt and a
/// frequency other than zero are accepted; otherwise nothing changes.
pub proof fn law_slice_is_a_millisecond(
    s: MachineView,
    cx: Entry,
    intid: u32,
    use_virtual: bool,
    frequency: u64,
)
    requires
        cx.cpu < 4,
    ensures
        ({
            let (t, accepted) = s.sched_init(cx, intid, use_virtual, frequency);
            let ticks = t.k.timer.ticks_per_slice;
            &&& accepted == (16 <= intid <= 31 && frequency > 0)
            &&& !accepted ==> t == s
            &&& accepted ==> {
                &&& ticks >= 1
                &&& frequency >= 1000 ==> ticks * 1000 <= frequency < (ticks + 1) * 1000
                &&& frequency < 1000 ==> ticks == 1
                &&& t.k.timer.intid == intid
                &&& ticks <= u32::MAX ==> t.k.timer.arm_op() == (HwOp::ArmTimer {
                    use_virtual,
                    ticks: ticks as u32,
                })
                &&& t.k.sched.cpus@[cx.cpu as int].initialized
                &&& t.k.sched.cpus@[cx.cpu as int].active_start == cx.now
                &&& !choices::slice_runs(t.ops)
                &&& t.k.threads == s.k.threads
            }
        }),
{
    let (t, accepted) = s.sched_init(cx, intid, use_virtual, frequency);
    if accepted {
        let before = t.ops.drop_last();
        assert(t.ops =~= before.push(t.k.timer.disarm_op()));
        choices::lemma_slice(before, t.k.timer.disarm_op());
    }
}

/// Setting the timer up enables its private line, with its own priority, and changes no other line.
#[verifier::spinoff_prover]
pub proof fn law_timer_line_is_enabled(
    s: MachineView,
    cx: Entry,
    intid: u32,
    use_virtual: bool,
    frequency: u64,
    d: Distributor,
    line: int,
)
    requires
        s.k.gic.is_ready(),
        16 <= intid < 32,
        frequency > 0,
        0 <= line < 1024,
    ensures
        ({
            let t = s.sched_init(cx, intid, use_virtual, frequency).0;
            let e = d.after_all(t.ops.skip(s.ops.len() as int));
            &&& t.ops.take(s.ops.len() as int) == s.ops
            &&& (e.enabled)(line) == (line == intid || (d.enabled)(line))
            &&& (e.pending)(line) == (line != intid && (d.pending)(line))
            &&& e.priority(line) == if line == intid {
                0x20u32
            } else {
                d.priority(line)
            }
        }),
{
    let t = s.sched_init(cx, intid, use_virtual, frequency).0;
    let off = t.k.timer.disarm_op();
    let a = s.k.gic.configure_private_ops(intid, 0x20);
    let b = s.k.gic.private_bit_ops(gic::GICD_ISENABLER, intid);
    let ops = seq![off] + a + b + seq![off];
    assert(t.ops =~= s.ops + ops);
    assert(t.ops.skip(s.ops.len() as int) =~= ops);
    assert(t.ops.take(s.ops.len() as int) =~= s.ops);
    lines::lemma_after_both(d, seq![off] + a + b, seq![off]);
    lines::lemma_after_both(d, seq![off] + a, b);
    lines::lemma_after_both(d, seq![off], a);
    lines::lemma_one(d, off);
    lines::lemma_one(d.after_all(seq![off] + a + b), off);
    lines::lemma_private_line(s.k.gic, d, intid, 0x20, line);
}

/// A processor that joins uses the shared table, is marked as up, and takes the most urgent thread
/// that is ready on it, or waits. Without a timer it stops and is not marked.
#[verifier::spinoff_prover]
pub proof fn law_processor_joins_and_looks(
    s: MachineView,
    cx: Entry,
    root: u64,
    intid: u32,
    use_virtual: bool,
    frequency: u64,
)
    requires
        cx.cpu < 4,
        crate::laws::scheduling::orderly(s),
    ensures
        ({
            let (t, next) = s.secondary_entry(cx, root, intid, use_virtual, frequency);
            if 16 <= intid < 32 && frequency > 0 {
                &&& t.k.smp.online_mask == s.k.smp.online_mask | (1u64 << cx.cpu)
                &&& t.k.smp.cpu_count == s.k.smp.cpu_count
                &&& forall|slot: int|
                    #[trigger] most_urgent(s, cx.cpu as int, -1, slot) && enterable(s, slot)
                        ==> taken_over(t, cx, slot, next)
                &&& (forall|other: int|
                    0 <= other < 16 ==> !#[trigger] choices::ready_on(s, cx.cpu as int, other))
                    ==> next == Dispatch::Wait && t.k.active_table == root
            } else {
                next == Dispatch::Halt && t.k.smp == s.k.smp
            }
        }),
{
    let a = MachineView {
        k: crate::machine::Kernel { active_table: root, ..s.k },
        ..s
    }.op(HwOp::SwitchTable { root, asid: 0 }).with_ops(Gic::cpu_interface_ops());
    let (b, timed) = a.sched_init(cx, intid, use_virtual, frequency);
    if timed {
        let c = MachineView {
            k: crate::machine::Kernel {
                smp: crate::arch::smp::Smp {
                    online_mask: b.k.smp.online_mask | (1u64 << cx.cpu),
                    ..b.k.smp
                },
                ..b.k
            },
            ..b
        }.op(HwOp::Sev);
        crate::laws::scheduling::lemma_no_less(s, c, -1);
        assert(crate::laws::scheduling::orderly(c));
        choices::lemma_waiting_processor(c, cx);
        assert forall|i: int|
            #[trigger] choices::ready_on(c, cx.cpu as int, i) == choices::ready_on(
                s,
                cx.cpu as int,
                i,
            ) by {}
        assert forall|slot: int|
            #[trigger] most_urgent(s, cx.cpu as int, -1, slot) && enterable(
                s,
                slot,
            ) implies taken_over(
            c.wait_and_activate(cx).0,
            cx,
            slot,
            c.wait_and_activate(cx).1,
        ) by {
            assert(choices::ready_on(s, cx.cpu as int, slot));
            assert(enterable(c, slot));
            assert forall|other: int|
                0 <= other < 16 && other != -1 && #[trigger] choices::ready_on(
                    c,
                    cx.cpu as int,
                    other,
                ) implies {
                let mine = c.k.threads.slots@[slot];
                let theirs = c.k.threads.slots@[other];
                ||| theirs.effective_priority < mine.effective_priority
                ||| theirs.effective_priority == mine.effective_priority && (mine.ready_sequence
                    < theirs.ready_sequence || (mine.ready_sequence == theirs.ready_sequence && slot
                    <= other))
            } by {
                assert(choices::ready_on(s, cx.cpu as int, other));
            }
            assert(most_urgent(c, cx.cpu as int, -1, slot));
        }
    }
}

} // verus!
