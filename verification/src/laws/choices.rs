//! Which thread a processor runs after one of its threads called, waited or gave way, and whether
//! a time slice begins.
use crate::hw::HwOp;
use crate::laws::delivery;
use crate::laws::exchange::runs;
use crate::laws::scheduling::{self, orderly, runs_now};
use crate::machine::{Dispatch, Entry, MachineView};
use crate::object::thread::ThreadState;
use crate::syscall::dispatch::TrapFrame;
use vstd::prelude::*;

verus! {

/// Thread `i` is ready to run on processor `cpu`.
pub open spec fn ready_on(s: MachineView, cpu: int, i: int) -> bool {
    s.k.threads.slots@[i].state == ThreadState::Ready && s.k.threads.slots@[i].affinity_cpu == cpu
}

/// Of the threads that are ready on `cpu`, but for thread `but`, thread `slot` has the highest
/// priority, and became ready first among those that have it, or stands first if they became ready
/// as one.
pub open spec fn most_urgent(s: MachineView, cpu: int, but: int, slot: int) -> bool {
    &&& 0 <= slot < 16
    &&& slot != but
    &&& ready_on(s, cpu, slot)
    &&& forall|other: int|
        0 <= other < 16 && other != but && #[trigger] ready_on(s, cpu, other) ==> {
            let mine = s.k.threads.slots@[slot];
            let theirs = s.k.threads.slots@[other];
            ||| theirs.effective_priority < mine.effective_priority
            ||| theirs.effective_priority == mine.effective_priority && (mine.ready_sequence
                < theirs.ready_sequence || (mine.ready_sequence == theirs.ready_sequence && slot
                <= other))
        }
}

/// Thread `slot` can be entered: it has a program counter and an address space.
pub open spec fn enterable(s: MachineView, slot: int) -> bool {
    &&& s.k.threads.slots@[slot].context.elr_el1 != 0
    &&& s.k.spaces.find_for(s.k.task.owner(), s.k.threads.slots@[slot].vspace_handle) is Ok
}

/// Processor `cx.cpu` goes over to thread `slot`, in the address space of that thread.
pub open spec fn taken_over(t: MachineView, cx: Entry, slot: int, next: Dispatch) -> bool {
    &&& next == Dispatch::Switch(slot as usize)
    &&& runs_now(t, cx, slot)
    &&& t.k.spaces.handle_on(cx.cpu) == t.k.threads.slots@[slot].vspace_handle
}

/// The last that was asked of the timer: to end a slice, or nothing any more.
pub open spec fn slice_runs(ops: Seq<HwOp>) -> bool
    decreases ops.len(),
{
    if ops.len() == 0 {
        false
    } else {
        match ops.last() {
            HwOp::ArmTimer { use_virtual, ticks } => true,
            HwOp::DisarmTimer { use_virtual } => false,
            _ => slice_runs(ops.drop_last()),
        }
    }
}

/// Another thread than `slot` is ready on `cpu` and as urgent.
pub open spec fn has_equal(s: MachineView, cpu: int, slot: int) -> bool {
    exists|other: int|
        0 <= other < 16 && other != slot && #[trigger] ready_on(s, cpu, other)
            && s.k.threads.slots@[other].effective_priority
            == s.k.threads.slots@[slot].effective_priority
}

pub(crate) proof fn lemma_slice(ops: Seq<HwOp>, op: HwOp)
    ensures
        slice_runs(ops.push(op)) == match op {
            HwOp::ArmTimer { use_virtual, ticks } => true,
            HwOp::DisarmTimer { use_virtual } => false,
            _ => slice_runs(ops),
        },
{
    assert(ops.push(op).last() == op);
    assert(ops.push(op).drop_last() =~= ops);
}

/// What choosing a thread comes to.
#[verifier::spinoff_prover]
proof fn lemma_chosen(s: MachineView, cx: Entry, slot: int)
    requires
        cx.cpu < 4,
        0 <= slot < 16,
        ready_on(s, cx.cpu as int, slot),
    ensures
        ({
            let (t, next) = s.activate(cx, slot);
            if enterable(s, slot) {
                &&& taken_over(t, cx, slot, next)
                &&& slice_runs(t.ops) == has_equal(s, cx.cpu as int, slot)
                &&& t.k.sched.cpus@[cx.cpu as int].active_start == cx.now
            } else {
                next == Dispatch::Halt
            }
        }),
{
    let cpu = cx.cpu as int;
    let p = s.k.threads.slots@[slot].effective_priority;
    let r = s.refreshed(cpu, p);
    let (t, next) = s.activate(cx, slot);
    if s.k.threads.slots@[slot].context.elr_el1 != 0 {
        assert(r.has_rival(cpu, p, slot) == has_equal(s, cpu, slot)) by {
            if r.has_rival(cpu, p, slot) {
                let other = choose|other: int|
                    0 <= other < 16 && other != slot
                        && #[trigger] crate::scheduler::priority::candidate(
                        r.k.threads,
                        cpu,
                        p as int,
                        other,
                    );
                assert(ready_on(s, cpu, other));
            }
            if has_equal(s, cpu, slot) {
                let other = choose|other: int|
                    0 <= other < 16 && other != slot && #[trigger] ready_on(s, cpu, other)
                        && s.k.threads.slots@[other].effective_priority == p;
                assert(crate::scheduler::priority::candidate(r.k.threads, cpu, p as int, other));
            }
        }
        let armed = if r.has_rival(cpu, p, slot) {
            r.arm_full(cx)
        } else {
            r.disarm().with_sched(r.k.sched.with_start(cpu, cx.now))
        };
        lemma_slice(r.ops, r.k.timer.arm_op());
        lemma_slice(r.ops, r.k.timer.disarm_op());
        assert(slice_runs(armed.ops) == has_equal(s, cpu, slot));
        let handle = s.k.threads.slots@[slot].vspace_handle;
        if let Ok(space) = s.k.spaces.find_for(s.k.task.owner(), handle) {
            let entry = armed.k.spaces.spaces@[space];
            lemma_slice(
                armed.ops,
                HwOp::SwitchTable { root: entry.root_pa, asid: entry.asid },
            );
        }
    }
}

/// The next thread is the most urgent one.
proof fn lemma_next(s: MachineView, cpu: int, but: int)
    requires
        orderly(s),
        0 <= cpu < 4,
        but == -1 || s.k.threads.slots@[but].state != ThreadState::Ready,
    ensures
        match s.next_thread(cpu) {
            Some(slot) => most_urgent(s, cpu, but, slot),
            None => forall|other: int| 0 <= other < 16 ==> !#[trigger] ready_on(s, cpu, other),
        },
{
    scheduling::law_next_is_most_urgent(s, cpu);
}

/// There is one most urgent thread at most.
proof fn lemma_one(s: MachineView, cpu: int, but: int, a: int, b: int)
    requires
        most_urgent(s, cpu, but, a),
        most_urgent(s, cpu, but, b),
    ensures
        a == b,
{
    assert(ready_on(s, cpu, a));
    assert(ready_on(s, cpu, b));
}

/// A thread that called goes on unless a more urgent one is ready on its processor. Then the most
/// urgent one runs. Where another is ready and as urgent, the thread goes on and a slice begins.
#[verifier::spinoff_prover]
pub proof fn law_more_urgent_thread_preempts(s: MachineView, cx: Entry, frame: TrapFrame, slot: int)
    requires
        runs(s, cx),
        orderly(s),
        most_urgent(s, cx.cpu as int, -1, slot),
    ensures
        ({
            let me = s.current(cx) as int;
            let mine = s.k.threads.slots@[me].effective_priority;
            let theirs = s.k.threads.slots@[slot].effective_priority;
            let (t, next) = s.preempt_if_needed(cx, frame);
            if theirs > mine {
                if enterable(s, slot) {
                    &&& taken_over(t, cx, slot, next)
                    &&& t.k.threads.slots@[me].state == ThreadState::Ready
                    &&& t.k.threads.slots@[me].context == frame
                } else {
                    next == Dispatch::Halt
                }
            } else {
                &&& next == Dispatch::Return
                &&& t.k.threads.current == s.k.threads.current
                &&& t.k.threads.slots@[me].state == ThreadState::Running
                &&& theirs == mine ==> slice_runs(t.ops)
                &&& theirs < mine ==> t.ops == s.ops
            }
        }),
{
    let cpu = cx.cpu as int;
    let me = s.current(cx) as int;
    lemma_next(s, cpu, -1);
    assert(ready_on(s, cpu, slot));
    lemma_one(s, cpu, -1, slot, s.next_thread(cpu)->0);
    let a = s.searched(cpu);
    let b = a.charge_current(cx);
    let c = b.leave(cx, frame, ThreadState::Ready);
    let d = c.thread_ready(cx, me);
    let (t, next) = s.preempt_if_needed(cx, frame);
    lemma_slice(b.ops, b.k.timer.arm_op());
    if s.k.threads.slots@[slot].effective_priority > s.k.threads.slots@[me].effective_priority {
        assert(d.k.threads.slots@[slot] == s.k.threads.slots@[slot]);
        assert(d.k.spaces == s.k.spaces && d.k.task == s.k.task);
        lemma_chosen(d, cx, slot);
        assert(slot != me);
        assert(c.k.threads.slots@[me].context == frame);
        assert(d.k.threads.slots@[me].context == frame);
    }
}

/// With no ready thread on its processor, a thread that called goes on and no slice begins.
pub proof fn law_alone_goes_on(s: MachineView, cx: Entry, frame: TrapFrame)
    requires
        runs(s, cx),
        orderly(s),
        forall|other: int| 0 <= other < 16 ==> !#[trigger] ready_on(s, cx.cpu as int, other),
    ensures
        ({
            let (t, next) = s.preempt_if_needed(cx, frame);
            &&& next == Dispatch::Return
            &&& t.k.threads == s.k.threads
            &&& t.ops == s.ops
        }),
{
    let cpu = cx.cpu as int;
    lemma_next(s, cpu, -1);
    if s.next_thread(cpu) is Some {
        assert(ready_on(s, cpu, s.next_thread(cpu)->0));
    }
}

/// When a thread has to wait, the most urgent of the other threads that are ready on its processor
/// runs, and a slice begins exactly if another one is ready and as urgent. If none is ready, the
/// processor waits without a slice.
#[verifier::spinoff_prover]
pub proof fn law_waiting_thread_makes_room(s: MachineView, cx: Entry, frame: TrapFrame)
    requires
        runs(s, cx),
        orderly(s),
    ensures
        ({
            let cpu = cx.cpu as int;
            let me = s.current(cx) as int;
            let (t, _, r) = s.block(cx, frame);
            &&& r is Ok
            &&& forall|slot: int|
                #[trigger] most_urgent(s, cpu, me, slot) ==> if enterable(s, slot) {
                    taken_over(t, cx, slot, r->Ok_0) && slice_runs(t.ops) == has_equal(
                        s,
                        cpu,
                        slot,
                    )
                } else {
                    r->Ok_0 == Dispatch::Halt
                }
            &&& (forall|other: int| 0 <= other < 16 ==> !#[trigger] ready_on(s, cpu, other)) ==> {
                &&& r->Ok_0 == Dispatch::Wait
                &&& !slice_runs(t.ops)
            }
        }),
{
    let cpu = cx.cpu as int;
    let me = s.current(cx) as int;
    let a = s.charge_current(cx);
    scheduling::lemma_charge(s, cx);
    scheduling::lemma_no_less(s, a, -1);
    scheduling::lemma_leave(a, cx, frame, ThreadState::Blocked);
    let b = a.leave(cx, frame, ThreadState::Blocked);
    let c = b.charge_current(cx);
    assert(c == b);
    let d = c.disarm();
    scheduling::lemma_no_less(c, d, -1);
    lemma_slice(c.ops, c.k.timer.disarm_op());
    lemma_next(d, cpu, -1);
    let e = d.searched(cpu);
    assert(forall|i: int| 0 <= i < 16 && i != me ==> d.k.threads.slots@[i] == s.k.threads.slots@[i]);
    assert(d.k.threads.slots@[me].state == ThreadState::Blocked);
    assert forall|i: int| 0 <= i < 16 implies #[trigger] ready_on(d, cpu, i) == ready_on(
        s,
        cpu,
        i,
    ) by {}
    match d.next_thread(cpu) {
        Some(slot) => {
            assert(ready_on(d, cpu, slot));
            assert(slot != me);
            assert(most_urgent(s, cpu, me, slot)) by {
                assert forall|other: int|
                    0 <= other < 16 && other != me && #[trigger] ready_on(s, cpu, other) implies {
                    let mine = s.k.threads.slots@[slot];
                    let theirs = s.k.threads.slots@[other];
                    ||| theirs.effective_priority < mine.effective_priority
                    ||| theirs.effective_priority == mine.effective_priority && (
                    mine.ready_sequence < theirs.ready_sequence || (mine.ready_sequence
                        == theirs.ready_sequence && slot <= other))
                } by {
                    assert(ready_on(d, cpu, other));
                }
            }
            lemma_chosen(e, cx, slot);
            lemma_same_equals(s, e, cpu, slot, me);
            assert forall|other: int| #[trigger] most_urgent(s, cpu, me, other) implies other
                == slot by {
                lemma_one(s, cpu, me, slot, other);
            }
            assert(ready_on(s, cpu, slot));
        },
        None => {
            lemma_slice(e.ops, e.k.timer.disarm_op());
            assert forall|slot: int| #[trigger] most_urgent(s, cpu, me, slot) implies false by {
                assert(ready_on(d, cpu, slot));
            }
        },
    }
}

proof fn lemma_same_equals(s: MachineView, t: MachineView, cpu: int, slot: int, but: int)
    requires
        0 <= slot < 16,
        slot != but,
        forall|i: int| 0 <= i < 16 && i != but ==> t.k.threads.slots@[i] == s.k.threads.slots@[i],
        0 <= but < 16,
        !ready_on(s, cpu, but),
        !ready_on(t, cpu, but),
    ensures
        has_equal(s, cpu, slot) == has_equal(t, cpu, slot),
{
    if has_equal(s, cpu, slot) {
        let other = choose|other: int|
            0 <= other < 16 && other != slot && #[trigger] ready_on(s, cpu, other)
                && s.k.threads.slots@[other].effective_priority
                == s.k.threads.slots@[slot].effective_priority;
        assert(ready_on(t, cpu, other));
    }
    if has_equal(t, cpu, slot) {
        let other = choose|other: int|
            0 <= other < 16 && other != slot && #[trigger] ready_on(t, cpu, other)
                && t.k.threads.slots@[other].effective_priority
                == t.k.threads.slots@[slot].effective_priority;
        assert(ready_on(s, cpu, other));
    }
}

/// A processor that was idle takes the most urgent thread that is ready on it, if there is one.
#[verifier::spinoff_prover]
pub proof fn law_idle_processor_takes_most_urgent(s: MachineView, cx: Entry)
    requires
        orderly(s),
        cx.cpu < 4,
    ensures
        ({
            let cpu = cx.cpu as int;
            let (t, next) = s.activate_if_idle(cx);
            &&& forall|slot: int|
                #[trigger] most_urgent(s, cpu, -1, slot) ==> if enterable(s, slot) {
                    taken_over(t, cx, slot, next) && slice_runs(t.ops) == has_equal(s, cpu, slot)
                } else {
                    next == Dispatch::Halt
                }
            &&& (forall|other: int| 0 <= other < 16 ==> !#[trigger] ready_on(s, cpu, other)) ==> {
                &&& next == Dispatch::Return
                &&& t.k.threads == s.k.threads
                &&& t.ops == s.ops
            }
        }),
{
    let cpu = cx.cpu as int;
    lemma_next(s, cpu, -1);
    let e = s.searched(cpu);
    match s.next_thread(cpu) {
        Some(slot) => {
            assert(ready_on(s, cpu, slot));
            lemma_chosen(e, cx, slot);
            assert(has_equal(s, cpu, slot) == has_equal(e, cpu, slot)) by {
                assert forall|i: int| #[trigger] ready_on(e, cpu, i) == ready_on(s, cpu, i) by {}
                if has_equal(s, cpu, slot) {
                    let other = choose|other: int|
                        0 <= other < 16 && other != slot && #[trigger] ready_on(s, cpu, other)
                            && s.k.threads.slots@[other].effective_priority
                            == s.k.threads.slots@[slot].effective_priority;
                    assert(ready_on(e, cpu, other));
                }
                if has_equal(e, cpu, slot) {
                    let other = choose|other: int|
                        0 <= other < 16 && other != slot && #[trigger] ready_on(e, cpu, other)
                            && e.k.threads.slots@[other].effective_priority
                            == e.k.threads.slots@[slot].effective_priority;
                    assert(ready_on(s, cpu, other));
                }
            }
            assert forall|other: int| #[trigger] most_urgent(s, cpu, -1, other) implies other
                == slot by {
                lemma_one(s, cpu, -1, slot, other);
            }
        },
        None => {
            assert forall|slot: int| #[trigger] most_urgent(s, cpu, -1, slot) implies false by {
                assert(ready_on(s, cpu, slot));
            }
        },
    }
}

/// What was asked of the hardware before a thread gave way stays asked.
pub(crate) proof fn lemma_yield_later(s: MachineView, cx: Entry, frame: TrapFrame)
    requires
        s.k.threads.runs(cx.cpu as int),
    ensures
        delivery::later(s, s.yield_current(cx, frame).0),
{
    let me = s.current(cx) as int;
    let a = s.charge_current(cx);
    let b = a.leave(cx, frame, ThreadState::Ready);
    assert(delivery::later(s, b));
    delivery::lemma_ready_later(b, cx, me);
    let c = b.thread_ready(cx, me);
    delivery::lemma_later(s, b, c);
    delivery::lemma_choice_later(c, cx);
    delivery::lemma_later(s, c, c.wait_and_activate(cx).0);
}

/// A thread that gives way is ready and goes on only when its turn comes: after the threads that
/// are as urgent, and before those that are less so. The most urgent thread runs, which may be the
/// same one.
#[verifier::spinoff_prover]
pub proof fn law_yield_gives_way(s: MachineView, cx: Entry, frame: TrapFrame)
    requires
        runs(s, cx),
        orderly(s),
        scheduling::numbered(s),
        s.k.sched.ready_sequence < u64::MAX,
        frame.elr_el1 != 0,
        s.k.threads.slots@[s.current(cx) as int].affinity_cpu == cx.cpu,
        s.k.spaces.find_for(
            s.k.task.owner(),
            s.k.threads.slots@[s.current(cx) as int].vspace_handle,
        ) is Ok,
    ensures
        ({
            let cpu = cx.cpu as int;
            let me = s.current(cx) as int;
            let mine = s.k.threads.slots@[me].effective_priority;
            let (t, next) = s.yield_current(cx, frame);
            &&& t.k.threads.slots@[me].context == frame
            &&& forall|slot: int|
                #[trigger] most_urgent(s, cpu, me, slot)
                    && s.k.threads.slots@[slot].effective_priority >= mine ==> if enterable(
                    s,
                    slot,
                ) {
                    taken_over(t, cx, slot, next) && t.k.threads.slots@[me].state
                        == ThreadState::Ready
                } else {
                    next == Dispatch::Halt
                }
            &&& (forall|other: int|
                0 <= other < 16 && #[trigger] ready_on(s, cpu, other)
                    ==> s.k.threads.slots@[other].effective_priority < mine) ==> taken_over(
                t,
                cx,
                me,
                next,
            )
        }),
{
    let cpu = cx.cpu as int;
    let me = s.current(cx) as int;
    let mine = s.k.threads.slots@[me].effective_priority;
    let a = s.charge_current(cx);
    scheduling::lemma_charge(s, cx);
    scheduling::lemma_no_less(s, a, -1);
    scheduling::lemma_make_current_ready(a, cx, frame);
    let b = a.leave(cx, frame, ThreadState::Ready);
    let c = a.make_current_ready(cx, frame);
    assert(c == b.thread_ready(cx, me));
    assert(b.k.threads.slots@[me].state == ThreadState::Ready);
    assert(c == b.enqueued(me));
    assert(forall|i: int| 0 <= i < 16 && i != me ==> c.k.threads.slots@[i] == s.k.threads.slots@[i]);
    assert(c.k.threads.slots@[me].context == frame);
    assert(c.k.threads.slots@[me].ready_sequence == s.k.sched.ready_sequence);
    assert(c.k.spaces == s.k.spaces && c.k.task == s.k.task);
    lemma_next(c, cpu, -1);
    assert(ready_on(c, cpu, me));
    let slot = c.next_thread(cpu)->0;
    assert(ready_on(c, cpu, slot));
    let d = c.searched(cpu);
    lemma_chosen(d, cx, slot);
    let (t, next) = s.yield_current(cx, frame);
    assert forall|other: int|
        #[trigger] most_urgent(s, cpu, me, other)
            && s.k.threads.slots@[other].effective_priority >= mine implies other == slot by {
        assert(ready_on(s, cpu, other));
        assert(ready_on(c, cpu, other));
        assert(s.k.threads.slots@[other].ready_sequence < s.k.sched.ready_sequence);
        if slot != me {
            assert(ready_on(s, cpu, slot));
        }
    }
    if slot != me {
        assert(ready_on(s, cpu, slot));
    }
}


/// A processor that runs nothing takes the most urgent thread that is ready on it, or waits.
#[verifier::spinoff_prover]
pub(crate) proof fn lemma_waiting_processor(s: MachineView, cx: Entry)
    requires
        orderly(s),
        cx.cpu < 4,
    ensures
        ({
            let cpu = cx.cpu as int;
            let (t, next) = s.wait_and_activate(cx);
            &&& t.k.smp == s.k.smp
            &&& forall|slot: int|
                #[trigger] most_urgent(s, cpu, -1, slot) && enterable(s, slot) ==> taken_over(
                    t,
                    cx,
                    slot,
                    next,
                )
            &&& (forall|other: int| 0 <= other < 16 ==> !#[trigger] ready_on(s, cpu, other))
                ==> next == Dispatch::Wait && t.k.active_table == s.k.active_table
        }),
{
    let cpu = cx.cpu as int;
    lemma_next(s, cpu, -1);
    let e = s.searched(cpu);
    match s.next_thread(cpu) {
        Some(slot) => {
            assert(ready_on(s, cpu, slot));
            lemma_chosen(e, cx, slot);
            assert forall|other: int| #[trigger] most_urgent(s, cpu, -1, other) implies other
                == slot by {
                lemma_one(s, cpu, -1, slot, other);
            }
        },
        None => {
            assert forall|slot: int| #[trigger] most_urgent(s, cpu, -1, slot) implies false by {
                assert(ready_on(s, cpu, slot));
            }
        },
    }
}


/// A thread that is entered runs in its own address space: where the processor used another one,
/// it is told to use the table of the thread's.
pub proof fn law_entered_thread_has_its_space(s: MachineView, cx: Entry, slot: int)
    requires
        cx.cpu < 4,
        0 <= slot < 16,
        s.k.spaces.find_for(s.k.task.owner(), s.k.threads.slots@[slot].vspace_handle) is Ok,
    ensures
        ({
            let handle = s.k.threads.slots@[slot].vspace_handle;
            let space = s.k.spaces.spaces@[s.k.spaces.find_for(s.k.task.owner(), handle)->Ok_0];
            let (t, next) = s.thread_activate(cx, slot);
            &&& taken_over(t, cx, slot, next)
            &&& if s.k.spaces.handle_on(cx.cpu) == handle {
                t.ops == s.ops && t.k.active_table == s.k.active_table
            } else {
                &&& t.ops == s.ops.push(
                    HwOp::SwitchTable { root: space.root_pa, asid: space.asid },
                )
                &&& t.k.active_table == space.root_pa
                &&& forall|cpu: usize|
                    cpu < 4 && cpu != cx.cpu ==> #[trigger] t.k.spaces.handle_on(cpu)
                        == s.k.spaces.handle_on(cpu)
            }
        }),
{
}

} // verus!
