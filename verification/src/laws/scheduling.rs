//! Ready threads and the maps that announce them: no ready thread is ever lost, and the most
//! urgent one runs next.
use crate::abi;
use crate::machine::{Dispatch, Entry, MachineView};
use crate::memory::{mmu, vspace};
use crate::object::ipc::Reply;
use crate::object::thread::{Thread, ThreadState, ThreadTable};
use crate::scheduler::priority;
use crate::scheduler::priority::Scheduler;
use crate::syscall::dispatch::TrapFrame;
use crate::util::ArrayUpdate;
use vstd::prelude::*;

verus! {

/// A thread is bound to one of the processors and has one of the priorities.
pub open spec fn in_range(thread: Thread) -> bool {
    thread.affinity_cpu < 4 && thread.base_priority < 64 && thread.effective_priority < 64
}

pub open spec fn ranged(threads: ThreadTable) -> bool {
    forall|i: int| 0 <= i < 16 ==> in_range(#[trigger] threads.slots@[i])
}

/// Thread `slot`, if it is ready, is announced in the map of its processor.
pub open spec fn slot_announced(threads: ThreadTable, sched: Scheduler, slot: int) -> bool {
    let thread = threads.slots@[slot];
    thread.state == ThreadState::Ready ==> priority::has_bit(
        sched.cpus@[thread.affinity_cpu as int].ready_bitmap,
        thread.effective_priority as int,
    )
}

/// Every ready thread but possibly thread `but` is announced.
pub open spec fn announced_but(s: MachineView, but: int) -> bool {
    forall|slot: int|
        0 <= slot < 16 && slot != but ==> #[trigger] slot_announced(
            s.k.threads,
            s.k.sched,
            slot,
        )
}

/// A thread that runs does so on the processor that it is bound to, and is the one that this
/// processor runs.
pub open spec fn placed(threads: ThreadTable) -> bool {
    forall|i: int|
        0 <= i < 16 && (#[trigger] threads.slots@[i]).state == ThreadState::Running ==> {
            let cpu = threads.slots@[i].running_cpu;
            cpu < 4 && threads.slots@[i].affinity_cpu == cpu && threads.current@[cpu as int] == i
        }
}

/// No thread runs on processor `cpu`.
pub open spec fn idle(threads: ThreadTable, cpu: int) -> bool {
    forall|i: int|
        0 <= i < 16 && (#[trigger] threads.slots@[i]).state == ThreadState::Running
            ==> threads.slots@[i].running_cpu != cpu
}

/// Every thread is in range, every ready one is announced, and every running one is in its place.
pub open spec fn orderly(s: MachineView) -> bool {
    orderly_but(s, -1)
}

/// Orderly but possibly for the announcement of thread `but`.
pub open spec fn orderly_but(s: MachineView, but: int) -> bool {
    ranged(s.k.threads) && announced_but(s, but) && placed(s.k.threads)
}

/// What the scheduler looks at in a thread is the same.
pub open spec fn alike(a: Thread, b: Thread) -> bool {
    a.state == b.state && a.affinity_cpu == b.affinity_cpu && a.running_cpu == b.running_cpu
        && a.effective_priority == b.effective_priority
}

/// A state with the same threads, as far as the scheduler looks, and maps with no bit less.
pub open spec fn no_less(s: MachineView, t: MachineView) -> bool {
    &&& ranged(t.k.threads)
    &&& t.k.threads.current == s.k.threads.current
    &&& forall|slot: int|
        0 <= slot < 16 ==> alike(
            s.k.threads.slots@[slot],
            #[trigger] t.k.threads.slots@[slot],
        )
    &&& forall|cpu: int, p: int|
        0 <= cpu < 4 && 0 <= p < 64 && priority::has_bit(s.k.sched.cpus@[cpu].ready_bitmap, p)
            ==> #[trigger] priority::has_bit(t.k.sched.cpus@[cpu].ready_bitmap, p)
}

/// Where threads are alike, the same ones run.
proof fn lemma_alike(a: ThreadTable, b: ThreadTable)
    requires
        b.current == a.current,
        forall|i: int| 0 <= i < 16 ==> alike(a.slots@[i], #[trigger] b.slots@[i]),
    ensures
        placed(a) ==> placed(b),
        forall|cpu: int| idle(a, cpu) ==> #[trigger] idle(b, cpu),
{
    if placed(a) {
        assert forall|i: int|
            0 <= i < 16 && (#[trigger] b.slots@[i]).state == ThreadState::Running implies {
            let cpu = b.slots@[i].running_cpu;
            cpu < 4 && b.slots@[i].affinity_cpu == cpu && b.current@[cpu as int] == i
        } by {
            assert(alike(a.slots@[i], b.slots@[i]));
            assert(a.slots@[i].state == ThreadState::Running);
        }
    }
    assert forall|cpu: int| idle(a, cpu) implies #[trigger] idle(b, cpu) by {
        assert forall|i: int|
            0 <= i < 16 && (#[trigger] b.slots@[i]).state == ThreadState::Running implies
            b.slots@[i].running_cpu != cpu by {
            assert(alike(a.slots@[i], b.slots@[i]));
            assert(a.slots@[i].state == ThreadState::Running);
        }
    }
}

pub(crate) proof fn lemma_no_less(s: MachineView, t: MachineView, but: int)
    requires
        orderly_but(s, but),
        no_less(s, t),
    ensures
        orderly_but(t, but),
        forall|cpu: int| idle(s.k.threads, cpu) ==> #[trigger] idle(t.k.threads, cpu),
{
    lemma_alike(s.k.threads, t.k.threads);
    assert forall|slot: int| 0 <= slot < 16 && slot != but implies #[trigger] slot_announced(
        t.k.threads,
        t.k.sched,
        slot,
    ) by {
        assert(slot_announced(s.k.threads, s.k.sched, slot));
        assert(in_range(s.k.threads.slots@[slot]));
        assert(alike(s.k.threads.slots@[slot], t.k.threads.slots@[slot]));
    }
}

/// Time is charged, slices start and end: the ready threads stay as they are.
pub(crate) proof fn lemma_charge(s: MachineView, cx: Entry)
    requires
        ranged(s.k.threads),
        cx.cpu < 4,
    ensures
        no_less(s, s.charge_current(cx)),
        s.charge_current(cx).k.threads.current == s.k.threads.current,
        s.charge_current(cx).k.sched == s.k.sched,
{
    let t = s.charge_current(cx);
    let slot = s.k.threads.current@[cx.cpu as int] as int;
    assert forall|i: int| 0 <= i < 16 implies in_range(#[trigger] t.k.threads.slots@[i]) by {
        assert(in_range(s.k.threads.slots@[i]));
    }
}

proof fn lemma_arm(s: MachineView, cx: Entry)
    requires
        ranged(s.k.threads),
        cx.cpu < 4,
    ensures
        no_less(s, s.arm_full(cx)),
        s.arm_full(cx).k.threads == s.k.threads,
{
}

/// A thread that became ready is announced, and no other thread is lost.
proof fn lemma_ready(s: MachineView, cx: Entry, slot: int, but: int)
    requires
        0 <= slot < 16,
        cx.cpu < 4,
        ranged(s.k.threads),
        placed(s.k.threads),
        forall|i: int|
            0 <= i < 16 && i != slot && i != but ==> #[trigger] slot_announced(
                s.k.threads,
                s.k.sched,
                i,
            ),
    ensures
        forall|c: int| idle(s.k.threads, c) ==> #[trigger] idle(
            s.thread_ready(cx, slot).k.threads,
            c,
        ),
        orderly_but(
            s.thread_ready(cx, slot),
            if but == slot {
                -1
            } else {
                but
            },
        ),
        forall|i: int|
            0 <= i < 16 ==> alike(
                s.k.threads.slots@[i],
                #[trigger] s.thread_ready(cx, slot).k.threads.slots@[i],
            ),
        forall|i: int|
            0 <= i < 16 ==> s.k.threads.slots@[i].base_priority == (
            #[trigger] s.thread_ready(cx, slot).k.threads.slots@[i]).base_priority,
        s.thread_ready(cx, slot).k.threads.current == s.k.threads.current,
        s.thread_ready(cx, slot).k.ipc == s.k.ipc,
        s.thread_ready(cx, slot).k.task == s.k.task,
{
    let t = s.enqueued(slot);
    let thread = s.k.threads.slots@[slot];
    let cpu = thread.affinity_cpu as int;
    let p = thread.effective_priority;
    assert(in_range(thread));
    let map = s.k.sched.cpus@[cpu].ready_bitmap;
    assert(t.k.sched.cpus@[cpu].ready_bitmap == map | (1u64 << (p as u64)));
    priority::lemma_bits(map, p as u64);
    assert forall|i: int| 0 <= i < 16 implies in_range(#[trigger] t.k.threads.slots@[i]) by {
        assert(in_range(s.k.threads.slots@[i]));
    }
    let left = if but == slot {
        -1
    } else {
        but
    };
    assert forall|i: int| 0 <= i < 16 && i != left implies #[trigger] slot_announced(
        t.k.threads,
        t.k.sched,
        i,
    ) by {
        let other = s.k.threads.slots@[i];
        assert(in_range(other));
        if i != slot {
            assert(slot_announced(s.k.threads, s.k.sched, i));
            if other.affinity_cpu == cpu && other.effective_priority != p {
                priority::lemma_bits_other(map, p as u64, other.effective_priority as u64);
            }
        }
    }
    lemma_alike(s.k.threads, t.k.threads);
    lemma_charge(t, cx);
    lemma_arm(t.charge_current(cx), cx);
    lemma_no_less(t, t.charge_current(cx), left);
    lemma_no_less(t.charge_current(cx), t.charge_current(cx).arm_full(cx), left);
}

/// Looking for the next thread drops no bit that a ready thread needs.
pub(crate) proof fn lemma_searched(s: MachineView, cpu: int)
    requires
        orderly(s),
        0 <= cpu < 4,
    ensures
        orderly(s.searched(cpu)),
        s.searched(cpu).k.threads == s.k.threads,
{
    let t = s.searched(cpu);
    let map = s.k.sched.cpus@[cpu].ready_bitmap;
    let top = s.next_priority(cpu);
    assert forall|i: int| 0 <= i < 16 && i != -1 implies #[trigger] slot_announced(
        t.k.threads,
        t.k.sched,
        i,
    ) by {
        let thread = s.k.threads.slots@[i];
        assert(in_range(thread));
        assert(slot_announced(s.k.threads, s.k.sched, i));
        let p = thread.effective_priority as int;
        if thread.state == ThreadState::Ready && thread.affinity_cpu == cpu {
            assert(priority::candidate(s.k.threads, cpu, p, i));
            assert(priority::has_candidate(s.k.threads, cpu, p));
            lemma_top(s.k.threads, cpu, map, 63);
            lemma_keep(map, top, p);
        }
    }
}

/// No announced ready thread is above the priority that was found.
proof fn lemma_top(threads: ThreadTable, cpu: int, map: u64, h: int)
    ensures
        -1 <= priority::top_priority(threads, cpu, map, h) <= h || h < -1,
        priority::top_priority(threads, cpu, map, h) >= 0 ==> priority::has_bit(
            map,
            priority::top_priority(threads, cpu, map, h),
        ) && priority::has_candidate(
            threads,
            cpu,
            priority::top_priority(threads, cpu, map, h),
        ),
        forall|p: int|
            priority::top_priority(threads, cpu, map, h) < p <= h && p >= 0 && priority::has_bit(
                map,
                p,
            ) ==> !#[trigger] priority::has_candidate(threads, cpu, p),
    decreases h + 1,
{
    if h >= 0 && !(priority::has_bit(map, h) && priority::has_candidate(threads, cpu, h)) {
        lemma_top(threads, cpu, map, h - 1);
    }
}

proof fn lemma_keep(map: u64, top: int, p: int)
    requires
        0 <= p <= top <= 63,
        priority::has_bit(map, p),
    ensures
        priority::has_bit(priority::keep_through(map, top), p),
{
    let q = p as u64;
    let t = top as u64;
    assert((map & (0xffff_ffff_ffff_ffffu64 >> ((63 - t) as u64))) & (1u64 << q) == map & (1u64
        << q)) by (bit_vector)
        requires
            q <= t,
            t <= 63,
    ;
}

/// Setting one bit by the threads that are there loses no ready thread.
proof fn lemma_refreshed(s: MachineView, cpu: int, p: u8)
    requires
        orderly(s),
        0 <= cpu < 4,
        p < 64,
    ensures
        orderly(s.refreshed(cpu, p)),
        s.refreshed(cpu, p).k.threads == s.k.threads,
{
    let t = s.refreshed(cpu, p);
    let map = s.k.sched.cpus@[cpu].ready_bitmap;
    priority::lemma_bits(map, p as u64);
    assert forall|i: int| 0 <= i < 16 && i != -1 implies #[trigger] slot_announced(
        t.k.threads,
        t.k.sched,
        i,
    ) by {
        let thread = s.k.threads.slots@[i];
        assert(in_range(thread));
        assert(slot_announced(s.k.threads, s.k.sched, i));
        if thread.state == ThreadState::Ready && thread.affinity_cpu == cpu {
            if thread.effective_priority == p {
                assert(priority::candidate(s.k.threads, cpu, p as int, i));
            } else {
                priority::lemma_bits_other(map, p as u64, thread.effective_priority as u64);
            }
        }
    }
}

/// The next thread is ready and bound to the processor, no ready thread there is more urgent, and
/// among equals it became ready first. There is none only if no thread is ready there.
pub proof fn law_next_is_most_urgent(s: MachineView, cpu: int)
    requires
        ranged(s.k.threads),
        announced_but(s, -1),
        0 <= cpu < 4,
    ensures
        match s.next_thread(cpu) {
            Some(slot) => {
                &&& 0 <= slot < 16
                &&& s.k.threads.slots@[slot].state == ThreadState::Ready
                &&& s.k.threads.slots@[slot].affinity_cpu == cpu
                &&& forall|other: int|
                    0 <= other < 16 && (#[trigger] s.k.threads.slots@[other]).state
                        == ThreadState::Ready && s.k.threads.slots@[other].affinity_cpu == cpu ==> {
                        let mine = s.k.threads.slots@[slot].effective_priority;
                        let theirs = s.k.threads.slots@[other].effective_priority;
                        theirs < mine || (theirs == mine && priority::earlier(
                            s.k.threads,
                            slot,
                            other,
                        ))
                    }
            },
            None => forall|other: int|
                0 <= other < 16 && (#[trigger] s.k.threads.slots@[other]).affinity_cpu == cpu
                    ==> s.k.threads.slots@[other].state != ThreadState::Ready,
        },
{
    let map = s.k.sched.cpus@[cpu].ready_bitmap;
    let top = s.next_priority(cpu);
    lemma_top(s.k.threads, cpu, map, 63);
    if top >= 0 {
        lemma_first_exists(s.k.threads, cpu, top);
    }
    assert forall|other: int|
        0 <= other < 16 && (#[trigger] s.k.threads.slots@[other]).affinity_cpu == cpu
            && s.k.threads.slots@[other].state == ThreadState::Ready implies top >= 0
        && s.k.threads.slots@[other].effective_priority <= top by {
        let p = s.k.threads.slots@[other].effective_priority as int;
        assert(in_range(s.k.threads.slots@[other]));
        assert(slot_announced(s.k.threads, s.k.sched, other));
        assert(priority::candidate(s.k.threads, cpu, p, other));
        assert(priority::has_candidate(s.k.threads, cpu, p));
    }
    if top >= 0 {
        let slot = priority::first_at(s.k.threads, cpu, top);
        assert forall|other: int|
            0 <= other < 16 && (#[trigger] s.k.threads.slots@[other]).state == ThreadState::Ready
                && s.k.threads.slots@[other].affinity_cpu == cpu implies {
            let mine = s.k.threads.slots@[slot].effective_priority;
            let theirs = s.k.threads.slots@[other].effective_priority;
            theirs < mine || (theirs == mine && priority::earlier(s.k.threads, slot, other))
        } by {
            if s.k.threads.slots@[other].effective_priority == top {
                assert(priority::candidate(s.k.threads, cpu, top, other));
            }
        }
    }
}

/// The next thread, if there is one, is a thread of the table.
pub(crate) proof fn lemma_next_in_range(s: MachineView, cpu: int)
    ensures
        s.next_thread(cpu) matches Some(slot) ==> 0 <= slot < 16,
{
    lemma_top(s.k.threads, cpu, s.k.sched.cpus@[cpu].ready_bitmap, 63);
    if s.next_priority(cpu) >= 0 {
        lemma_first_exists(s.k.threads, cpu, s.next_priority(cpu));
    }
}

/// The next thread, if there is one, is the first of the ready threads of its priority.
pub(crate) proof fn lemma_next_is_first(s: MachineView, cpu: int)
    ensures
        s.next_thread(cpu) matches Some(slot) ==> priority::is_first(
            s.k.threads,
            cpu,
            s.next_priority(cpu),
            slot,
        ),
{
    lemma_top(s.k.threads, cpu, s.k.sched.cpus@[cpu].ready_bitmap, 63);
    if s.next_priority(cpu) >= 0 {
        lemma_first_exists(s.k.threads, cpu, s.next_priority(cpu));
    }
}

/// Among the ready threads of one priority there is a first.
proof fn lemma_first_exists(threads: ThreadTable, cpu: int, p: int)
    requires
        priority::has_candidate(threads, cpu, p),
    ensures
        priority::is_first(threads, cpu, p, priority::first_at(threads, cpu, p)),
{
    let slot = choose|slot: int|
        0 <= slot < 16 && #[trigger] priority::candidate(threads, cpu, p, slot);
    let first = lemma_first_below(threads, cpu, p, slot, 16);
    assert(priority::is_first(threads, cpu, p, first));
}

proof fn lemma_first_below(threads: ThreadTable, cpu: int, p: int, slot: int, n: int) -> (r: int)
    requires
        0 <= slot < 16,
        priority::candidate(threads, cpu, p, slot),
        0 <= n <= 16,
    ensures
        0 <= r < 16,
        priority::candidate(threads, cpu, p, r),
        forall|other: int|
            0 <= other < n && #[trigger] priority::candidate(threads, cpu, p, other)
                ==> priority::earlier(threads, r, other),
    decreases n,
{
    if n == 0 {
        slot
    } else {
        let before = lemma_first_below(threads, cpu, p, slot, n - 1);
        if priority::candidate(threads, cpu, p, n - 1) && !priority::earlier(
            threads,
            before,
            n - 1,
        ) {
            n - 1
        } else {
            before
        }
    }
}

/// Every thread's place in line is before the next number to be given.
pub open spec fn numbered(s: MachineView) -> bool {
    s.k.sched.ready_sequence >= 1 && forall|i: int|
        0 <= i < 16 ==> (#[trigger] s.k.threads.slots@[i]).ready_sequence
            < s.k.sched.ready_sequence
}

/// A thread that becomes ready goes behind all others, until the numbers run out.
pub proof fn law_ready_goes_last(s: MachineView, slot: int)
    requires
        numbered(s),
        0 <= slot < 16,
        s.k.threads.slots@[slot].affinity_cpu < 4,
        s.k.sched.ready_sequence < u64::MAX,
    ensures
        numbered(s.enqueued(slot)),
        forall|other: int|
            0 <= other < 16 && other != slot ==> (
            #[trigger] s.enqueued(slot).k.threads.slots@[other]).ready_sequence < s.enqueued(
                slot,
            ).k.threads.slots@[slot].ready_sequence,
{
    let t = s.enqueued(slot);
    assert forall|i: int| 0 <= i < 16 implies (#[trigger] t.k.threads.slots@[i]).ready_sequence
        < t.k.sched.ready_sequence by {
        assert(s.k.threads.slots@[i].ready_sequence < s.k.sched.ready_sequence);
    }
}

/// Thread `slot` runs on this processor, and no other does.
pub open spec fn runs_now(s: MachineView, cx: Entry, slot: int) -> bool {
    &&& 0 <= slot < 16
    &&& s.k.threads.slots@[slot].state == ThreadState::Running
    &&& s.k.threads.slots@[slot].running_cpu == cx.cpu
    &&& s.k.threads.current@[cx.cpu as int] == slot
}

/// Where the processor switches to is the thread that runs there.
pub open spec fn switched_to(s: MachineView, cx: Entry, next: Dispatch) -> bool {
    next matches Dispatch::Switch(slot) ==> runs_now(s, cx, slot as int)
}

/// The thread that starts to run leaves the ready ones; the others stay.
proof fn lemma_activate(s: MachineView, cx: Entry, slot: int)
    requires
        orderly(s),
        cx.cpu < 4,
        0 <= slot < 16,
        idle(s.k.threads, cx.cpu as int),
        s.k.threads.slots@[slot].affinity_cpu == cx.cpu,
    ensures
        orderly(s.activate(cx, slot).0),
        s.activate(cx, slot).1 matches Dispatch::Switch(to) ==> to == slot && runs_now(
            s.activate(cx, slot).0,
            cx,
            slot,
        ),
{
    let thread = s.k.threads.slots@[slot];
    let cpu = cx.cpu as int;
    assert(in_range(thread));
    if thread.context.elr_el1 != 0 {
        let r = s.refreshed(cpu, thread.effective_priority);
        lemma_refreshed(s, cpu, thread.effective_priority);
        let armed = if r.has_rival(cpu, thread.effective_priority, slot) {
            r.arm_full(cx)
        } else {
            r.disarm().with_sched(r.k.sched.with_start(cpu, cx.now))
        };
        lemma_arm(r, cx);
        assert(no_less(r, armed));
        lemma_no_less(r, armed, -1);
        lemma_switch(armed, cx, slot);
    }
}

proof fn lemma_switch(s: MachineView, cx: Entry, slot: int)
    requires
        orderly(s),
        cx.cpu < 4,
        0 <= slot < 16,
        idle(s.k.threads, cx.cpu as int),
        s.k.threads.slots@[slot].affinity_cpu == cx.cpu,
    ensures
        orderly(s.thread_activate(cx, slot).0),
        s.thread_activate(cx, slot).1 matches Dispatch::Switch(to) ==> to == slot && runs_now(
            s.thread_activate(cx, slot).0,
            cx,
            slot,
        ),
{
    let t = s.thread_activate(cx, slot).0;
    assert forall|i: int|
        0 <= i < 16 && (#[trigger] t.k.threads.slots@[i]).state == ThreadState::Running implies {
        let cpu = t.k.threads.slots@[i].running_cpu;
        cpu < 4 && t.k.threads.slots@[i].affinity_cpu == cpu && t.k.threads.current@[cpu as int]
            == i
    } by {
        if i != slot {
            assert(s.k.threads.slots@[i].state == ThreadState::Running);
        }
    }
    assert forall|i: int| 0 <= i < 16 implies in_range(#[trigger] t.k.threads.slots@[i]) by {
        assert(in_range(s.k.threads.slots@[i]));
    }
    assert forall|i: int| 0 <= i < 16 && i != -1 implies #[trigger] slot_announced(
        t.k.threads,
        t.k.sched,
        i,
    ) by {
        assert(slot_announced(s.k.threads, s.k.sched, i));
    }
}

pub(crate) proof fn lemma_wait_and_activate(s: MachineView, cx: Entry)
    requires
        orderly(s),
        cx.cpu < 4,
        idle(s.k.threads, cx.cpu as int),
    ensures
        orderly(s.wait_and_activate(cx).0),
        orderly(s.activate_if_idle(cx).0),
        switched_to(s.wait_and_activate(cx).0, cx, s.wait_and_activate(cx).1),
        switched_to(s.activate_if_idle(cx).0, cx, s.activate_if_idle(cx).1),
{
    let t = s.searched(cx.cpu as int);
    lemma_searched(s, cx.cpu as int);
    law_next_is_most_urgent(s, cx.cpu as int);
    match s.next_thread(cx.cpu as int) {
        Some(slot) => {
            lemma_activate(t, cx, slot);
        },
        None => {
            lemma_no_less(t, t.disarm(), -1);
        },
    }
}

proof fn lemma_schedule_after_block(s: MachineView, cx: Entry)
    requires
        orderly(s),
        cx.cpu < 4,
        idle(s.k.threads, cx.cpu as int),
    ensures
        orderly(s.schedule_after_block(cx).0),
        switched_to(s.schedule_after_block(cx).0, cx, s.schedule_after_block(cx).1),
{
    let t = s.charge_current(cx);
    lemma_charge(s, cx);
    lemma_no_less(s, t, -1);
    lemma_no_less(t, t.disarm(), -1);
    lemma_wait_and_activate(t.disarm(), cx);
}

proof fn lemma_save(s: MachineView, cpu: int, frame: TrapFrame, but: int)
    requires
        orderly_but(s, but),
    ensures
        orderly_but(s.save_current(cpu, frame), but),
        s.save_current(cpu, frame).k.threads.current == s.k.threads.current,
        s.save_current(cpu, frame).k.sched == s.k.sched,
        s.save_current(cpu, frame).k.ipc == s.k.ipc,
        s.save_current(cpu, frame).k.task == s.k.task,
        no_less(s, s.save_current(cpu, frame)),
{
    let t = s.save_current(cpu, frame);
    assert forall|i: int| 0 <= i < 16 implies in_range(#[trigger] t.k.threads.slots@[i]) by {
        assert(in_range(s.k.threads.slots@[i]));
    }
    lemma_no_less(s, t, but);
}

/// The running thread stops running; if it stays ready, only it is not announced.
pub(crate) proof fn lemma_leave(s: MachineView, cx: Entry, frame: TrapFrame, state: ThreadState)
    requires
        orderly(s),
        cx.cpu < 4,
        s.k.threads.current@[cx.cpu as int] < 16,
        state != ThreadState::Running,
    ensures
        idle(s.leave(cx, frame, state).k.threads, cx.cpu as int),
        orderly_but(
            s.leave(cx, frame, state),
            if state == ThreadState::Ready {
                s.k.threads.current@[cx.cpu as int] as int
            } else {
                -1
            },
        ),
        s.leave(cx, frame, state).k.threads.current == s.k.threads.current,
{
    let r = s.save_current(cx.cpu as int, frame);
    lemma_save(s, cx.cpu as int, frame, -1);
    let t = s.leave(cx, frame, state);
    let slot = s.k.threads.current@[cx.cpu as int] as int;
    assert forall|i: int| 0 <= i < 16 implies in_range(#[trigger] t.k.threads.slots@[i]) by {
        assert(in_range(r.k.threads.slots@[i]));
    }
    assert forall|i: int|
        0 <= i < 16 && (#[trigger] t.k.threads.slots@[i]).state == ThreadState::Running implies {
        let cpu = t.k.threads.slots@[i].running_cpu;
        cpu < 4 && cpu != cx.cpu && t.k.threads.slots@[i].affinity_cpu == cpu
            && t.k.threads.current@[cpu as int] == i
    } by {
        assert(r.k.threads.slots@[i].state == ThreadState::Running);
    }
    assert forall|i: int|
        0 <= i < 16 && (state != ThreadState::Ready || i != slot) implies #[trigger] slot_announced(
        t.k.threads,
        t.k.sched,
        i,
    ) by {
        assert(slot_announced(r.k.threads, r.k.sched, i));
    }
}

pub(crate) proof fn lemma_make_current_ready(s: MachineView, cx: Entry, frame: TrapFrame)
    requires
        orderly(s),
        cx.cpu < 4,
        s.k.threads.current@[cx.cpu as int] < 16,
    ensures
        orderly(s.make_current_ready(cx, frame)),
        idle(s.make_current_ready(cx, frame).k.threads, cx.cpu as int),
        forall|i: int|
            0 <= i < 16 ==> s.k.threads.slots@[i].affinity_cpu == (
            #[trigger] s.make_current_ready(cx, frame).k.threads.slots@[i]).affinity_cpu,
{
    let slot = s.k.threads.current@[cx.cpu as int] as int;
    lemma_leave(s, cx, frame, ThreadState::Ready);
    let t = s.leave(cx, frame, ThreadState::Ready);
    lemma_ready(t, cx, slot, -1);
    assert forall|i: int| 0 <= i < 16 implies s.k.threads.slots@[i].affinity_cpu == (
    #[trigger] s.make_current_ready(cx, frame).k.threads.slots@[i]).affinity_cpu by {
        assert(alike(
            t.k.threads.slots@[i],
            s.make_current_ready(cx, frame).k.threads.slots@[i],
        ));
    }
}

pub(crate) proof fn lemma_yield(s: MachineView, cx: Entry, frame: TrapFrame)
    requires
        orderly(s),
        cx.cpu < 4,
        s.k.threads.current@[cx.cpu as int] < 16,
    ensures
        orderly(s.yield_current(cx, frame).0),
        switched_to(s.yield_current(cx, frame).0, cx, s.yield_current(cx, frame).1),
{
    let t = s.charge_current(cx);
    lemma_charge(s, cx);
    lemma_no_less(s, t, -1);
    lemma_make_current_ready(t, cx, frame);
    lemma_wait_and_activate(t.make_current_ready(cx, frame), cx);
}

proof fn lemma_preempt(s: MachineView, cx: Entry, frame: TrapFrame)
    requires
        orderly(s),
        cx.cpu < 4,
        s.k.threads.current@[cx.cpu as int] < 16,
    ensures
        orderly(s.preempt_if_needed(cx, frame).0),
        switched_to(s.preempt_if_needed(cx, frame).0, cx, s.preempt_if_needed(cx, frame).1),
{
    let t = s.searched(cx.cpu as int);
    lemma_searched(s, cx.cpu as int);
    law_next_is_most_urgent(s, cx.cpu as int);
    let u = t.charge_current(cx);
    lemma_charge(t, cx);
    lemma_no_less(t, u, -1);
    lemma_arm(u, cx);
    lemma_no_less(u, u.arm_full(cx), -1);
    lemma_make_current_ready(u, cx, frame);
    if s.next_thread(cx.cpu as int) is Some {
        let next = s.next_thread(cx.cpu as int)->0;
        assert(alike(t.k.threads.slots@[next], u.k.threads.slots@[next]));
        assert(u.k.threads.slots@[next].affinity_cpu == u.make_current_ready(
            cx,
            frame,
        ).k.threads.slots@[next].affinity_cpu);
        lemma_activate(u.make_current_ready(cx, frame), cx, next);
    }
}

proof fn lemma_priority_changed(s: MachineView, cx: Entry, slot: int, but: int)
    requires
        ranged(s.k.threads),
        placed(s.k.threads),
        forall|i: int|
            0 <= i < 16 && i != slot && i != but ==> #[trigger] slot_announced(
                s.k.threads,
                s.k.sched,
                i,
            ),
        cx.cpu < 4,
        0 <= slot < 16,
    ensures
        orderly_but(
            s.priority_changed(cx, slot),
            if but == slot {
                -1
            } else {
                but
            },
        ),
        forall|i: int|
            0 <= i < 16 ==> alike(
                s.k.threads.slots@[i],
                #[trigger] s.priority_changed(cx, slot).k.threads.slots@[i],
            ),
        s.priority_changed(cx, slot).k.threads.current == s.k.threads.current,
        s.priority_changed(cx, slot).k.ipc == s.k.ipc,
        s.priority_changed(cx, slot).k.task == s.k.task,
{
    let thread = s.k.threads.slots@[slot];
    lemma_ready(s, cx, slot, but);
    if thread.state != ThreadState::Ready {
        let t = s.priority_changed(cx, slot);
        assert(slot_announced(t.k.threads, t.k.sched, slot));
        assert forall|i: int|
            0 <= i < 16 && i != (if but == slot {
                -1
            } else {
                but
            }) implies #[trigger] slot_announced(t.k.threads, t.k.sched, i) by {
            if i != slot {
                assert(slot_announced(s.k.threads, s.k.sched, i));
            }
        }
    }
}

/// A thread that was blocked and is woken is announced.
pub(crate) proof fn lemma_wake(s: MachineView, cx: Entry, slot: int, value: u64)
    requires
        orderly(s),
        cx.cpu < 4,
    ensures
        orderly(s.wake(cx, slot, value)),
        forall|c: int| idle(s.k.threads, c) ==> #[trigger] idle(
            s.wake(cx, slot, value).k.threads,
            c,
        ),
        s.wake(cx, slot, value).k.threads.current == s.k.threads.current,
        s.wake(cx, slot, value).k.ipc == s.k.ipc,
        s.wake(cx, slot, value).k.task == s.k.task,
{
    let thread = s.k.threads.slots@[slot];
    if 0 <= slot < 16 && thread.state == ThreadState::Blocked {
        let t = s.with_threads(
            s.k.threads.with(
                slot,
                Thread {
                    context: thread.context.with_result(value),
                    state: ThreadState::Ready,
                    running_cpu: crate::object::thread::NONE,
                    ..thread
                },
            ),
        );
        assert forall|i: int| 0 <= i < 16 implies in_range(#[trigger] t.k.threads.slots@[i]) by {
            assert(in_range(s.k.threads.slots@[i]));
        }
        assert forall|i: int| 0 <= i < 16 && i != slot && i != -1 implies #[trigger] slot_announced(
            t.k.threads,
            t.k.sched,
            i,
        ) by {
            assert(slot_announced(s.k.threads, s.k.sched, i));
        }
        lemma_fewer(s.k.threads, t.k.threads, slot);
        lemma_ready(t, cx, slot, -1);
    }
}

/// Where one thread stops running or none changes, the others stay in their places.
proof fn lemma_fewer(a: ThreadTable, b: ThreadTable, slot: int)
    requires
        0 <= slot < 16,
        b.current == a.current,
        b.slots@[slot].state != ThreadState::Running,
        forall|i: int| 0 <= i < 16 && i != slot ==> (#[trigger] b.slots@[i]) == a.slots@[i],
    ensures
        placed(a) ==> placed(b),
        forall|cpu: int| idle(a, cpu) ==> #[trigger] idle(b, cpu),
        placed(a) && a.slots@[slot].state == ThreadState::Running ==> idle(
            b,
            a.slots@[slot].running_cpu as int,
        ),
{
    if placed(a) {
        assert forall|i: int|
            0 <= i < 16 && (#[trigger] b.slots@[i]).state == ThreadState::Running implies {
            let cpu = b.slots@[i].running_cpu;
            cpu < 4 && b.slots@[i].affinity_cpu == cpu && b.current@[cpu as int] == i
        } by {
            assert(a.slots@[i].state == ThreadState::Running);
        }
        if a.slots@[slot].state == ThreadState::Running {
            assert forall|i: int|
                0 <= i < 16 && (#[trigger] b.slots@[i]).state == ThreadState::Running implies
                b.slots@[i].running_cpu != a.slots@[slot].running_cpu by {
                assert(a.slots@[i].state == ThreadState::Running);
            }
        }
    }
    assert forall|cpu: int| idle(a, cpu) implies #[trigger] idle(b, cpu) by {
        assert forall|i: int|
            0 <= i < 16 && (#[trigger] b.slots@[i]).state == ThreadState::Running implies
            b.slots@[i].running_cpu != cpu by {
            assert(a.slots@[i].state == ThreadState::Running);
        }
    }
}

/// Only effective priorities change, and they stay in range.
pub open spec fn reprioritized(a: ThreadTable, b: ThreadTable) -> bool {
    &&& b.current == a.current
    &&& forall|i: int|
        0 <= i < 16 ==> (#[trigger] b.slots@[i]) == (Thread {
            effective_priority: b.slots@[i].effective_priority,
            ..a.slots@[i]
        })
    &&& ranged(b)
}

/// Priorities do not matter for who runs.
proof fn lemma_reprioritized(a: ThreadTable, b: ThreadTable)
    requires
        reprioritized(a, b),
    ensures
        placed(a) ==> placed(b),
        forall|cpu: int| idle(a, cpu) ==> #[trigger] idle(b, cpu),
{
    if placed(a) {
        assert forall|i: int|
            0 <= i < 16 && (#[trigger] b.slots@[i]).state == ThreadState::Running implies {
            let cpu = b.slots@[i].running_cpu;
            cpu < 4 && b.slots@[i].affinity_cpu == cpu && b.current@[cpu as int] == i
        } by {
            assert(a.slots@[i].state == ThreadState::Running);
        }
    }
    assert forall|cpu: int| idle(a, cpu) implies #[trigger] idle(b, cpu) by {
        assert forall|i: int|
            0 <= i < 16 && (#[trigger] b.slots@[i]).state == ThreadState::Running implies
            b.slots@[i].running_cpu != cpu by {
            assert(a.slots@[i].state == ThreadState::Running);
        }
    }
}

proof fn lemma_inherit_pass(threads: ThreadTable, replies: [Reply; 16], k: int)
    requires
        ranged(threads),
        0 <= k <= 16,
        forall|i: int| 0 <= i < 16 ==> (#[trigger] replies@[i]).wf(),
    ensures
        reprioritized(
            threads,
            crate::object::ipc::inherit_pass(threads, replies, k),
        ),
    decreases k,
{
    if k > 0 {
        lemma_inherit_pass(threads, replies, k - 1);
        let before = crate::object::ipc::inherit_pass(threads, replies, k - 1);
        let after = crate::object::ipc::inherit_pass(threads, replies, k);
        assert(replies@[k - 1].wf());
        assert forall|i: int| 0 <= i < 16 implies in_range(#[trigger] after.slots@[i]) by {
            assert(in_range(before.slots@[i]));
            if replies@[k - 1].owner != 0 {
                assert(in_range(before.slots@[replies@[k - 1].caller as int]));
            }
        }
    }
}

proof fn lemma_inherit_all(threads: ThreadTable, replies: [Reply; 16], pass: int)
    requires
        ranged(threads),
        0 <= pass,
        forall|i: int| 0 <= i < 16 ==> (#[trigger] replies@[i]).wf(),
    ensures
        reprioritized(threads, crate::object::ipc::inherit_all(threads, replies, pass)),
    decreases 16 - pass,
{
    if pass < 16 {
        lemma_inherit_pass(threads, replies, 16);
        let next = crate::object::ipc::inherit_pass(threads, replies, 16);
        if next != threads {
            lemma_inherit_all(next, replies, pass + 1);
            let last = crate::object::ipc::inherit_all(next, replies, pass + 1);
            assert forall|i: int| 0 <= i < 16 implies (#[trigger] last.slots@[i]) == (Thread {
                effective_priority: last.slots@[i].effective_priority,
                ..threads.slots@[i]
            }) by {
                assert(next.slots@[i] == (Thread {
                    effective_priority: next.slots@[i].effective_priority,
                    ..threads.slots@[i]
                }));
            }
        }
    }
}

pub(crate) proof fn lemma_inherited(threads: ThreadTable, replies: [Reply; 16])
    requires
        ranged(threads),
        forall|i: int| 0 <= i < 16 ==> (#[trigger] replies@[i]).wf(),
    ensures
        reprioritized(threads, crate::object::ipc::inherited(threads, replies)),
{
    let f = crate::object::ipc::uninherited();
    crate::util::lemma_mapped(threads.slots, f, 16);
    let start = ThreadTable { slots: crate::util::mapped(threads.slots, f, 16), ..threads };
    assert forall|i: int| 0 <= i < 16 implies in_range(#[trigger] start.slots@[i]) by {
        assert(in_range(threads.slots@[i]));
    }
    lemma_inherit_all(start, replies, 0);
    let last = crate::object::ipc::inherited(threads, replies);
    assert forall|i: int| 0 <= i < 16 implies (#[trigger] last.slots@[i]) == (Thread {
        effective_priority: last.slots@[i].effective_priority,
        ..threads.slots@[i]
    }) by {
        assert(start.slots@[i] == f(threads.slots@[i]));
    }
}

/// Threads whose priority changed are announced one after the other.
proof fn lemma_announce(s: MachineView, cx: Entry, before: ThreadTable, k: int)
    requires
        ranged(s.k.threads),
        placed(s.k.threads),
        cx.cpu < 4,
        0 <= k <= 16,
        forall|i: int|
            0 <= i < 16 && before.slots@[i].effective_priority
                == s.k.threads.slots@[i].effective_priority ==> #[trigger] slot_announced(
                s.k.threads,
                s.k.sched,
                i,
            ),
    ensures
        ({
            let t = s.announce_priorities(cx, before, k);
            &&& ranged(t.k.threads)
            &&& placed(t.k.threads)
            &&& t.k.threads.current == s.k.threads.current
            &&& t.k.ipc == s.k.ipc
            &&& t.k.task == s.k.task
            &&& forall|i: int|
                0 <= i < 16 ==> alike(s.k.threads.slots@[i], #[trigger] t.k.threads.slots@[i])
            &&& forall|i: int|
                0 <= i < 16 && (i < k || before.slots@[i].effective_priority
                    == s.k.threads.slots@[i].effective_priority) ==> #[trigger] slot_announced(
                    t.k.threads,
                    t.k.sched,
                    i,
                )
        }),
    decreases k,
{
    reveal(MachineView::announce_priorities);
    if k > 0 {
        lemma_announce(s, cx, before, k - 1);
        let t = s.announce_priorities(cx, before, k - 1);
        let u = s.announce_priorities(cx, before, k);
        if before.slots@[k - 1].effective_priority != t.k.threads.slots@[k - 1].effective_priority {
            lemma_announce_one(t, cx, k - 1);
        } else {
            assert(slot_announced(t.k.threads, t.k.sched, k - 1));
        }
        assert forall|i: int|
            0 <= i < 16 && (i < k || before.slots@[i].effective_priority
                == s.k.threads.slots@[i].effective_priority) implies #[trigger] slot_announced(
            u.k.threads,
            u.k.sched,
            i,
        ) by {
            if i != k - 1 {
                assert(slot_announced(t.k.threads, t.k.sched, i));
            }
        }
        assert forall|i: int| 0 <= i < 16 implies alike(
            s.k.threads.slots@[i],
            #[trigger] u.k.threads.slots@[i],
        ) by {
            assert(alike(s.k.threads.slots@[i], t.k.threads.slots@[i]));
        }
    }
}

/// Announcing one thread keeps each other announcement.
proof fn lemma_announce_one(s: MachineView, cx: Entry, slot: int)
    requires
        ranged(s.k.threads),
        cx.cpu < 4,
        0 <= slot < 16,
    ensures
        ({
            let t = s.priority_changed(cx, slot);
            &&& ranged(t.k.threads)
            &&& placed(s.k.threads) ==> placed(t.k.threads)
            &&& t.k.threads.current == s.k.threads.current
            &&& t.k.ipc == s.k.ipc
            &&& t.k.task == s.k.task
            &&& forall|i: int|
                0 <= i < 16 ==> alike(s.k.threads.slots@[i], #[trigger] t.k.threads.slots@[i])
            &&& slot_announced(t.k.threads, t.k.sched, slot)
            &&& forall|i: int|
                0 <= i < 16 && slot_announced(s.k.threads, s.k.sched, i)
                    ==> #[trigger] slot_announced(t.k.threads, t.k.sched, i)
        }),
{
    let t = s.priority_changed(cx, slot);
    let thread = s.k.threads.slots@[slot];
    assert(in_range(thread));
    if thread.state == ThreadState::Ready {
        let u = s.enqueued(slot);
        let cpu = thread.affinity_cpu as int;
        let map = s.k.sched.cpus@[cpu].ready_bitmap;
        priority::lemma_bits(map, thread.effective_priority as u64);
        assert forall|i: int| 0 <= i < 16 implies in_range(#[trigger] u.k.threads.slots@[i]) by {
            assert(in_range(s.k.threads.slots@[i]));
        }
        assert forall|i: int|
            0 <= i < 16 && slot_announced(s.k.threads, s.k.sched, i)
                implies #[trigger] slot_announced(u.k.threads, u.k.sched, i) by {
            let other = s.k.threads.slots@[i];
            assert(in_range(other));
            if i != slot && other.affinity_cpu == cpu && other.effective_priority
                != thread.effective_priority {
                priority::lemma_bits_other(
                    map,
                    thread.effective_priority as u64,
                    other.effective_priority as u64,
                );
            }
        }
        lemma_charge(u, cx);
        lemma_arm(u.charge_current(cx), cx);
        let v = u.charge_current(cx).arm_full(cx);
        assert forall|i: int|
            0 <= i < 16 && slot_announced(u.k.threads, u.k.sched, i)
                implies #[trigger] slot_announced(t.k.threads, t.k.sched, i) by {
            assert(in_range(u.k.threads.slots@[i]));
            assert(alike(u.k.threads.slots@[i], u.charge_current(cx).k.threads.slots@[i]));
        }
        assert forall|i: int| 0 <= i < 16 implies alike(
            s.k.threads.slots@[i],
            #[trigger] t.k.threads.slots@[i],
        ) by {
            assert(alike(u.k.threads.slots@[i], u.charge_current(cx).k.threads.slots@[i]));
        }
        assert(slot_announced(u.k.threads, u.k.sched, slot));
    }
    lemma_alike(s.k.threads, t.k.threads);
}

/// Every reply right is sound.
pub open spec fn replies_ok(s: MachineView) -> bool {
    forall|i: int| 0 <= i < 16 ==> (#[trigger] s.k.ipc.replies@[i]).wf()
}

/// Priorities computed anew leave every ready thread announced.
pub(crate) proof fn lemma_recompute(s: MachineView, cx: Entry)
    requires
        orderly(s),
        cx.cpu < 4,
        replies_ok(s),
    ensures
        orderly(s.recompute(cx)),
        s.recompute(cx).k.threads.current == s.k.threads.current,
        s.recompute(cx).k.ipc == s.k.ipc,
        s.recompute(cx).k.task == s.k.task,
        forall|i: int|
            0 <= i < 16 ==> s.k.threads.slots@[i].state == (#[trigger] s.recompute(
                cx,
            ).k.threads.slots@[i]).state,
        forall|c: int| idle(s.k.threads, c) ==> #[trigger] idle(s.recompute(cx).k.threads, c),
{
    let t = s.with_threads(crate::object::ipc::inherited(s.k.threads, s.k.ipc.replies));
    lemma_inherited(s.k.threads, s.k.ipc.replies);
    assert forall|i: int|
        0 <= i < 16 && s.k.threads.slots@[i].effective_priority
            == t.k.threads.slots@[i].effective_priority implies #[trigger] slot_announced(
        t.k.threads,
        t.k.sched,
        i,
    ) by {
        assert(slot_announced(s.k.threads, s.k.sched, i));
        assert(t.k.threads.slots@[i].affinity_cpu == s.k.threads.slots@[i].affinity_cpu);
    }
    lemma_reprioritized(s.k.threads, t.k.threads);
    lemma_announce(t, cx, s.k.threads, 16);
    let u = s.recompute(cx);
    lemma_alike(t.k.threads, u.k.threads);
    assert forall|i: int| 0 <= i < 16 && i != -1 implies #[trigger] slot_announced(
        u.k.threads,
        u.k.sched,
        i,
    ) by {}
    assert forall|i: int| 0 <= i < 16 implies s.k.threads.slots@[i].state == (
    #[trigger] u.k.threads.slots@[i]).state by {
        assert(alike(t.k.threads.slots@[i], u.k.threads.slots@[i]));
        assert(t.k.threads.slots@[i].state == s.k.threads.slots@[i].state);
    }
}

proof fn lemma_allocate_reply(s: MachineView, cx: Entry, caller: u8, server: u8, endpoint: u8)
    requires
        orderly(s),
        replies_ok(s),
        cx.cpu < 4,
        caller < 16,
        server < 16,
        endpoint < 16,
    ensures
        ({
            let t = s.allocate_reply(cx, caller, server, endpoint).0;
            &&& orderly(t)
            &&& replies_ok(t)
            &&& t.k.threads.current == s.k.threads.current
            &&& t.k.ipc.endpoints == s.k.ipc.endpoints
        }),
{
    if s.k.ipc.free_reply(0) is Some {
        let slot = s.k.ipc.free_reply(0)->0;
        lemma_free_reply(s, 0);
        let reply = Reply {
            owner: s.k.task.owner(),
            generation: s.k.ipc.replies@[slot].generation,
            caller,
            server,
            endpoint,
        };
        let t = s.with_ipc(s.k.ipc.with_reply(slot, reply));
        assert(s.k.ipc.replies@[slot].wf());
        assert forall|i: int| 0 <= i < 16 implies (#[trigger] t.k.ipc.replies@[i]).wf() by {
            assert(s.k.ipc.replies@[i].wf());
        }
        assert(no_less(s, t));
        lemma_no_less(s, t, -1);
        lemma_recompute(t, cx);
    }
}

pub(crate) proof fn lemma_free_reply(s: MachineView, from: int)
    requires
        0 <= from,
        s.k.ipc.free_reply(from) is Some,
    ensures
        from <= s.k.ipc.free_reply(from)->0 < 16,
    decreases 16 - from,
{
    if from < 16 && s.k.ipc.replies@[from].owner != 0 {
        lemma_free_reply(s, from + 1);
    }
}

proof fn lemma_deliver(
    s: MachineView,
    cx: Entry,
    sender: crate::object::ipc::PendingSender,
    receiver: int,
    endpoint: int,
)
    requires
        orderly(s),
        replies_ok(s),
        cx.cpu < 4,
        sender.slot < 16,
        0 <= receiver < 16,
        0 <= endpoint < 16,
    ensures
        ({
            let t = s.deliver(cx, sender, receiver, endpoint).0;
            &&& orderly(t)
            &&& replies_ok(t)
            &&& t.k.threads.current == s.k.threads.current
        }),
{
    if sender.is_call {
        lemma_allocate_reply(s, cx, sender.slot, receiver as u8, endpoint as u8);
        let (t, reply) = s.allocate_reply(cx, sender.slot, receiver as u8, endpoint as u8);
        if reply is Some {
            let u = t.write_message(
                receiver,
                crate::abi::IpcMessage {
                    reply: crate::abi::ReplyHandle(reply->0),
                    ..sender.message
                },
            );
            assert(no_less(t, u));
            lemma_no_less(t, u, -1);
            lemma_wake(u, cx, receiver, 0);
        }
    } else {
        lemma_wake(s, cx, sender.slot as int, 0);
        let t = s.wake(cx, sender.slot as int, 0);
        let u = t.write_message(
            receiver,
            crate::abi::IpcMessage { reply: crate::abi::ReplyHandle(0), ..sender.message },
        );
        assert(no_less(t, u));
        lemma_no_less(t, u, -1);
        lemma_wake(u, cx, receiver, 0);
    }
}

proof fn lemma_block(s: MachineView, cx: Entry, frame: TrapFrame)
    requires
        orderly(s),
        cx.cpu < 4,
        s.k.threads.current@[cx.cpu as int] < 16,
    ensures
        orderly(s.block(cx, frame).0),
        s.block(cx, frame).2 matches Ok(next) ==> switched_to(s.block(cx, frame).0, cx, next),
{
    let t = s.charge_current(cx);
    lemma_charge(s, cx);
    lemma_no_less(s, t, -1);
    lemma_leave(t, cx, frame, ThreadState::Blocked);
    lemma_schedule_after_block(t.leave(cx, frame, ThreadState::Blocked), cx);
}

/// Other tables than those of threads and ready sets may differ.
pub(crate) proof fn lemma_elsewhere(s: MachineView, t: MachineView)
    requires
        orderly(s),
        t.k.threads == s.k.threads,
        t.k.sched == s.k.sched,
    ensures
        orderly(t),
{
    assert(no_less(s, t));
    lemma_no_less(s, t, -1);
}

pub(crate) proof fn lemma_send(s: MachineView, cx: Entry, handle: u64, is_call: bool, frame: TrapFrame)
    requires
        s.wf(),
        orderly(s),
        s.k.threads.runs(cx.cpu as int),
    ensures
        orderly(s.send(cx, handle, is_call, frame).0),
        s.send(cx, handle, is_call, frame).2 matches Ok(next) ==> switched_to(
            s.send(cx, handle, is_call, frame).0,
            cx,
            next,
        ),
{
    match s.k.ipc.find_endpoint(s.k.task.owner(), handle) {
        Err(_) => {},
        Ok(slot) => {
            lemma_found_endpoint(s, handle);
            let endpoint = s.k.ipc.endpoints@[slot];
            assert(endpoint.wf());
            let sender = crate::object::ipc::PendingSender {
                slot: s.current(cx),
                is_call,
                message: cx.message,
            };
            if endpoint.receivers.count > 0 {
                let receiver = endpoint.receivers.slots@[0];
                let popped = s.with_endpoint(
                    slot,
                    crate::object::ipc::Endpoint {
                        receivers: endpoint.receivers.popped(),
                        ..endpoint
                    },
                );
                lemma_elsewhere(s, popped);
                lemma_deliver(popped, cx, sender, receiver as int, slot);
                let (t, outcome) = popped.deliver(cx, sender, receiver as int, slot);
                match outcome {
                    Err(_) => {
                        lemma_elsewhere(t, t.requeue_receiver(slot, receiver));
                    },
                    Ok(()) => {
                        lemma_block(t, cx, frame.with_result(0));
                        lemma_preempt(t, cx, frame.with_result(0));
                    },
                }
            } else if endpoint.sender_count < 16 {
                let queued = s.with_endpoint(slot, endpoint.with_sender(sender));
                lemma_elsewhere(s, queued);
                lemma_block(queued, cx, frame);
            }
        },
    }
}

proof fn lemma_found_endpoint(s: MachineView, handle: u64)
    ensures
        s.k.ipc.find_endpoint(s.k.task.owner(), handle) matches Ok(slot) ==> 0 <= slot < 16,
{
}

proof fn lemma_await(s: MachineView, cx: Entry, slot: int, frame: TrapFrame)
    requires
        orderly(s),
        s.k.threads.runs(cx.cpu as int),
    ensures
        orderly(s.await_message(cx, slot, frame).0),
        s.await_message(cx, slot, frame).2 matches Ok(next) ==> switched_to(
            s.await_message(cx, slot, frame).0,
            cx,
            next,
        ),
{
    let endpoint = s.k.ipc.endpoints@[slot];
    let queued = s.with_endpoint(
        slot,
        crate::object::ipc::Endpoint {
            receivers: endpoint.receivers.pushed(s.current(cx)),
            ..endpoint
        },
    );
    lemma_elsewhere(s, queued);
    lemma_block(queued, cx, frame);
}

proof fn lemma_recv(s: MachineView, cx: Entry, handle: u64, frame: TrapFrame)
    requires
        s.wf(),
        orderly(s),
        s.k.threads.runs(cx.cpu as int),
    ensures
        orderly(s.recv(cx, handle, frame).0),
        s.recv(cx, handle, frame).2 matches Ok(next) ==> switched_to(
            s.recv(cx, handle, frame).0,
            cx,
            next,
        ),
{
    match s.k.ipc.find_endpoint(s.k.task.owner(), handle) {
        Err(_) => {},
        Ok(slot) => {
            lemma_found_endpoint(s, handle);
            let endpoint = s.k.ipc.endpoints@[slot];
            assert(endpoint.wf());
            if endpoint.sender_count > 0 {
                let sender = endpoint.senders@[0];
                let taken = s.with_endpoint(slot, endpoint.without_first_sender());
                lemma_elsewhere(s, taken);
                lemma_deliver(taken, cx, sender, s.current(cx) as int, slot);
                let t = taken.deliver(cx, sender, s.current(cx) as int, slot).0;
                lemma_elsewhere(t, t.requeue_sender(slot, sender));
            } else {
                lemma_await(s, cx, slot, frame);
            }
        },
    }
}

proof fn lemma_answer(s: MachineView, cx: Entry, handle: u64)
    requires
        orderly(s),
        replies_ok(s),
        cx.cpu < 4,
    ensures
        ({
            let t = s.answer(cx, handle).0;
            &&& orderly(t)
            &&& replies_ok(t)
            &&& t.k.threads.current == s.k.threads.current
            &&& t.k.ipc.endpoints == s.k.ipc.endpoints
        }),
{
    match s.k.ipc.find_reply(s.k.task.owner(), s.current(cx), handle) {
        Err(_) => {},
        Ok(slot) => {
            let reply = s.k.ipc.replies@[slot];
            assert(0 <= slot < 16 && reply.wf());
            let written = s.write_message(reply.caller as int, cx.message);
            lemma_elsewhere(s, written);
            lemma_wake(written, cx, reply.caller as int, 0);
            let t = written.wake(cx, reply.caller as int, 0);
            let u = t.with_ipc(
                t.k.ipc.with_reply(
                    slot,
                    Reply::unused(crate::handle::generation_after(reply.generation)),
                ),
            );
            assert forall|i: int| 0 <= i < 16 implies (#[trigger] u.k.ipc.replies@[i]).wf() by {
                assert(s.k.ipc.replies@[i].wf());
            }
            lemma_elsewhere(t, u);
            lemma_recompute(u, cx);
        },
    }
}

proof fn lemma_reply_recv(s: MachineView, cx: Entry, endpoint: u64, reply: u64, frame: TrapFrame)
    requires
        s.wf(),
        orderly(s),
        s.k.threads.runs(cx.cpu as int),
    ensures
        orderly(s.reply_recv(cx, endpoint, reply, frame).0),
        s.reply_recv(cx, endpoint, reply, frame).2 matches Ok(next) ==> switched_to(
            s.reply_recv(cx, endpoint, reply, frame).0,
            cx,
            next,
        ),
{
    match s.k.ipc.find_endpoint(s.k.task.owner(), endpoint) {
        Err(_) => {},
        Ok(slot) => {
            lemma_found_endpoint(s, endpoint);
            assert(s.k.ipc.endpoints@[slot].wf());
            lemma_answer(s, cx, reply);
            let (t, error) = s.answer(cx, reply);
            if error is None {
                let endpoint = t.k.ipc.endpoints@[slot];
                if endpoint.sender_count > 0 {
                    let sender = endpoint.senders@[0];
                    let taken = t.with_endpoint(slot, endpoint.without_first_sender());
                    lemma_elsewhere(t, taken);
                    lemma_deliver(taken, cx, sender, s.current(cx) as int, slot);
                    let (u, outcome) = taken.deliver(cx, sender, s.current(cx) as int, slot);
                    match outcome {
                        Err(_) => {
                            lemma_elsewhere(u, u.requeue_sender(slot, sender));
                        },
                        Ok(()) => {
                            lemma_preempt(u, cx, frame.with_result(0));
                        },
                    }
                } else {
                    lemma_await(t, cx, slot, frame);
                }
            }
        },
    }
}

pub(crate) proof fn lemma_endpoint_calls(s: MachineView, cx: Entry, frame: TrapFrame)
    requires
        s.wf(),
        orderly(s),
        s.k.threads.runs(cx.cpu as int),
    ensures
        orderly(s.endpoint_svc(cx, frame).0),
        switched_to(s.endpoint_svc(cx, frame).0, cx, s.endpoint_svc(cx, frame).2),
{
    let sysno = frame.x@[8];
    let a = frame.x@[0];
    if sysno == abi::SYS_ENDPOINT_CREATE {
        lemma_elsewhere(s, s.endpoint_create().0);
    } else if sysno == abi::SYS_ENDPOINT_SEND {
        lemma_send(s, cx, a, false, frame);
    } else if sysno == abi::SYS_ENDPOINT_RECV {
        lemma_recv(s, cx, a, frame);
    } else if sysno == abi::SYS_ENDPOINT_CALL {
        lemma_send(s, cx, a, true, frame);
    } else if sysno == abi::SYS_ENDPOINT_REPLY {
        lemma_answer(s, cx, a);
        if s.answer(cx, a).1 is None {
            lemma_preempt(s.answer(cx, a).0, cx, frame.with_result(0));
        }
    } else if sysno == abi::SYS_ENDPOINT_REPLY_RECV {
        lemma_reply_recv(s, cx, a, frame.x@[1], frame);
    } else {
        lemma_elsewhere(s, s.endpoint_destroy(a).0);
    }
}

proof fn lemma_signal(s: MachineView, cx: Entry, handle: u64, badge: u64)
    requires
        orderly(s),
        cx.cpu < 4,
    ensures
        orderly(s.signal(cx, handle, badge).0),
        s.signal(cx, handle, badge).0.k.threads.current == s.k.threads.current,
        forall|c: int| idle(s.k.threads, c) ==> #[trigger] idle(
            s.signal(cx, handle, badge).0.k.threads,
            c,
        ),
{
    match s.k.ipc.find_notification(s.k.task.owner(), handle) {
        Err(_) => {},
        Ok(slot) => {
            let notification = s.k.ipc.notifications@[slot];
            let pending = notification.pending | badge;
            let t = s.with_notification(
                slot,
                crate::object::ipc::Notification {
                    pending: 0,
                    waiters: notification.waiters.popped(),
                    ..notification
                },
            );
            lemma_elsewhere(s, t);
            lemma_wake(t, cx, notification.waiters.slots@[0] as int, pending);
            lemma_elsewhere(
                s,
                s.with_notification(
                    slot,
                    crate::object::ipc::Notification { pending, ..notification },
                ),
            );
        },
    }
}

pub(crate) proof fn lemma_notification_calls(s: MachineView, cx: Entry, frame: TrapFrame)
    requires
        s.wf(),
        orderly(s),
        s.k.threads.runs(cx.cpu as int),
    ensures
        orderly(s.notification_svc(cx, frame).0),
        switched_to(s.notification_svc(cx, frame).0, cx, s.notification_svc(cx, frame).2),
{
    let a = frame.x@[0];
    lemma_elsewhere(s, s.notification_create().0);
    lemma_signal(s, cx, a, frame.x@[1]);
    lemma_preempt(s.signal(cx, a, frame.x@[1]).0, cx, frame.with_result(0));
    lemma_elsewhere(s, s.notification_poll(a).0);
    lemma_elsewhere(s, s.notification_destroy(a).0);
    match s.k.ipc.find_notification(s.k.task.owner(), a) {
        Err(_) => {},
        Ok(slot) => {
            let notification = s.k.ipc.notifications@[slot];
            let taken = s.with_notification(
                slot,
                crate::object::ipc::Notification { pending: 0, ..notification },
            );
            lemma_elsewhere(s, taken);
            let queued = s.with_notification(
                slot,
                crate::object::ipc::Notification {
                    waiters: notification.waiters.pushed(s.current(cx)),
                    ..notification
                },
            );
            lemma_elsewhere(s, queued);
            lemma_block(queued, cx, frame);
        },
    }
}

pub(crate) proof fn lemma_drop_pages(s: MachineView, root: u64, va: int, pa: u64, pages: u64)
    ensures
        s.drop_pages(root, va, pa, pages).0.k == (crate::machine::Kernel {
            mem: s.drop_pages(root, va, pa, pages).0.k.mem,
            ..s.k
        }),
{
    vspace::lemma_unmap_run_frame(s, root, va, pages as int);
}

/// A thread that is not ready may come, change or go without a trace in the ready sets.
pub(crate) proof fn lemma_other_thread(s: MachineView, t: MachineView, slot: int, thread: Thread)
    requires
        orderly(s),
        0 <= slot < 16,
        in_range(thread),
        thread.state != ThreadState::Ready && thread.state != ThreadState::Running,
        t.k.threads.current == s.k.threads.current,
        t.k.threads.slots == s.k.threads.with(slot, thread).slots,
        t.k.sched == s.k.sched,
    ensures
        orderly(t),
        s.k.threads.slots@[slot].state == ThreadState::Running ==> idle(
            t.k.threads,
            s.k.threads.slots@[slot].running_cpu as int,
        ),
        forall|cpu: int| idle(s.k.threads, cpu) ==> #[trigger] idle(t.k.threads, cpu),
{
    lemma_fewer(s.k.threads, t.k.threads, slot);
    assert forall|i: int| 0 <= i < 16 implies in_range(#[trigger] t.k.threads.slots@[i]) by {
        assert(in_range(s.k.threads.slots@[i]));
    }
    assert forall|i: int| 0 <= i < 16 && i != -1 implies #[trigger] slot_announced(
        t.k.threads,
        t.k.sched,
        i,
    ) by {
        assert(slot_announced(s.k.threads, s.k.sched, i));
    }
}

/// A thread that comes or becomes ready is announced.
pub(crate) proof fn lemma_new_ready(s: MachineView, cx: Entry, slot: int, thread: Thread)
    requires
        orderly(s),
        cx.cpu < 4,
        0 <= slot < 16,
        in_range(thread),
        thread.state == ThreadState::Ready,
    ensures
        orderly(s.with_threads(s.k.threads.with(slot, thread)).thread_ready(cx, slot)),
{
    let t = s.with_threads(s.k.threads.with(slot, thread));
    lemma_fewer(s.k.threads, t.k.threads, slot);
    assert forall|i: int| 0 <= i < 16 implies in_range(#[trigger] t.k.threads.slots@[i]) by {
        assert(in_range(s.k.threads.slots@[i]));
    }
    assert forall|i: int| 0 <= i < 16 && i != slot && i != -1 implies #[trigger] slot_announced(
        t.k.threads,
        t.k.sched,
        i,
    ) by {
        assert(slot_announced(s.k.threads, s.k.sched, i));
    }
    lemma_ready(t, cx, slot, -1);
}

pub(crate) proof fn lemma_free_slot(threads: ThreadTable, from: int)
    requires
        0 <= from,
        threads.free_slot(from) is Some,
    ensures
        from <= threads.free_slot(from)->0 < 16,
    decreases 16 - from,
{
    if from < 16 && threads.slots@[from].live() {
        lemma_free_slot(threads, from + 1);
    }
}

proof fn lemma_thread_create(
    s: MachineView,
    cx: Entry,
    entry: u64,
    arg: u64,
    cpu: u64,
    urgency: u64,
    mcp: u64,
)
    requires
        s.wf(),
        orderly(s),
        cx.cpu < 4,
    ensures
        orderly(s.thread_create(cx, entry, arg, cpu, urgency, mcp).0),
{
    let made = s.thread_create(cx, entry, arg, cpu, urgency, mcp).0;
    if !s.k.threads.initialized || !s.thread_request_ok(cpu, urgency, mcp) || !s.user_executable(
        s.k.active_table,
        entry as int,
    ) || s.k.threads.free_slot(1) is None {
    } else {
        let slot = s.k.threads.free_slot(1)->0;
        lemma_free_slot(s.k.threads, 1);
        let (mem, stack) = s.k.mem.pages_alloc(64);
        let t = s.with_mem(mem);
        lemma_elsewhere(s, t);
        if stack is Some {
            let (mem2, page) = t.k.mem.page_alloc();
            let u = t.with_mem(mem2);
            lemma_elsewhere(s, u);
            match page {
                None => {
                    lemma_elsewhere(s, made);
                },
                Some(ipc_pa) => {
                    let v = u.op(crate::hw::HwOp::Zero { pa: stack->0, bytes: 0x4_0000 }).op(
                        crate::hw::HwOp::Zero { pa: ipc_pa, bytes: 4096 },
                    );
                    lemma_elsewhere(u, v);
                    lemma_thread_create_mapped(
                        v,
                        cx,
                        slot,
                        stack->0,
                        ipc_pa,
                        entry,
                        arg,
                        cpu,
                        urgency,
                        mcp,
                    );
                },
            }
        }
    }
}

proof fn lemma_thread_create_mapped(
    s: MachineView,
    cx: Entry,
    slot: int,
    stack_pa: u64,
    ipc_pa: u64,
    entry: u64,
    arg: u64,
    cpu: u64,
    urgency: u64,
    mcp: u64,
)
    requires
        orderly(s),
        cx.cpu < 4,
        0 <= slot < 16,
        cpu < 4,
        urgency < 64,
    ensures
        orderly(
            s.thread_create_mapped(
                cx,
                slot,
                stack_pa,
                ipc_pa,
                entry,
                arg,
                cpu,
                urgency,
                mcp,
            ).0,
        ),
{
    let made = s.thread_create_mapped(
        cx,
        slot,
        stack_pa,
        ipc_pa,
        entry,
        arg,
        cpu,
        urgency,
        mcp,
    ).0;
    let root = s.k.active_table;
    let stack_va = crate::object::thread::stack_base_of(slot);
    let ipc_va = crate::object::thread::ipc_va_of(slot);
    let (t, no_stack) = s.map_checked(root, stack_va, stack_pa as int, mmu::MMU_USER_RW, 64);
    vspace::lemma_map_checked_frame(s, root, stack_va, stack_pa as int, mmu::MMU_USER_RW, 64);
    if no_stack is Some {
        lemma_elsewhere(s, made);
    } else {
        let (u, no_ipc) = t.map_checked(root, ipc_va, ipc_pa as int, mmu::MMU_USER_RW, 1);
        vspace::lemma_map_checked_frame(t, root, ipc_va, ipc_pa as int, mmu::MMU_USER_RW, 1);
        vspace::lemma_unmap_run_frame(u, root, stack_va, 64);
        let v = u.unmap_run(root, stack_va, 64).0;
        vspace::lemma_unmap_run_frame(v, root, ipc_va, 1);
        if no_ipc is Some {
            lemma_elsewhere(s, made);
        } else {
            let handle = u.k.spaces.handle_on(cx.cpu);
            match u.k.spaces.find(handle) {
                Ok(space) => {
                    if u.k.spaces.spaces@[space].active_thread_count == u16::MAX {
                        lemma_elsewhere(s, made);
                    } else {
                        let w = u.with_spaces(u.k.spaces.thread_added(space));
                        lemma_elsewhere(s, w);
                        let generation = w.k.threads.slots@[slot].generation;
                        let zero = TrapFrame::zeroed();
                        let name = crate::handle::handle_of(slot, generation) as u64;
                        let thread = Thread {
                            generation,
                            owner: w.k.task.owner(),
                            creator_owner: w.k.task.owner(),
                            vspace_handle: handle,
                            vspace_root: root,
                            state: ThreadState::Ready,
                            context: TrapFrame {
                                x: zero.x.upd(0, arg).upd(1, name).upd(2, ipc_va as u64),
                                sp_el0: (stack_va + 0x4_0000) as u64,
                                elr_el1: entry,
                                ..zero
                            },
                            stack_pa,
                            stack_pages: 64,
                            stack_va: stack_va as u64,
                            ipc_pa,
                            ipc_va: ipc_va as u64,
                            affinity_cpu: cpu as u8,
                            base_priority: urgency as u8,
                            effective_priority: urgency as u8,
                            max_control_priority: mcp as u8,
                            running_cpu: crate::object::thread::NONE,
                            ready_sequence: 0,
                            runtime_ticks: 0,
                        };
                        lemma_new_ready(w, cx, slot, thread);
                        assert(made == w.with_threads(
                            w.k.threads.with(slot, thread),
                        ).thread_ready(cx, slot));
                    }
                },
                Err(_) => {
                    lemma_elsewhere(s, made);
                },
            }
        }
    }
}

proof fn lemma_cancel_replies(s: MachineView, cx: Entry, slot: int, k: int)
    requires
        orderly(s),
        replies_ok(s),
        cx.cpu < 4,
        0 <= k <= 16,
    ensures
        ({
            let t = s.cancel_replies(cx, slot, k);
            orderly(t) && replies_ok(t) && t.k.threads.current == s.k.threads.current
        }),
    decreases k,
{
    if k > 0 {
        lemma_cancel_replies(s, cx, slot, k - 1);
        let t = s.cancel_replies(cx, slot, k - 1);
        let reply = t.k.ipc.replies@[k - 1];
        assert(reply.wf());
        lemma_wake(t, cx, reply.caller as int, abi::SYS_ERR_NOT_FOUND);
        if reply.owner != 0 && (reply.caller == slot || reply.server == slot) {
            let u = if reply.server == slot && reply.caller != slot {
                t.wake(cx, reply.caller as int, abi::SYS_ERR_NOT_FOUND)
            } else {
                t
            };
            let v = s.cancel_replies(cx, slot, k);
            lemma_elsewhere(u, v);
            assert forall|i: int| 0 <= i < 16 implies (#[trigger] v.k.ipc.replies@[i]).wf() by {
                assert(t.k.ipc.replies@[i].wf());
            }
        }
    }
}

proof fn lemma_thread_exit(s: MachineView, cx: Entry, frame: TrapFrame)
    requires
        s.wf(),
        orderly(s),
        s.k.threads.runs(cx.cpu as int),
    ensures
        orderly(s.thread_exit(cx, frame).0),
        s.thread_exit(cx, frame).1 matches Ok(Some(next)) ==> switched_to(
            s.thread_exit(cx, frame).0,
            cx,
            next,
        ),
{
    let slot = s.k.threads.current@[cx.cpu as int] as int;
    let saved = s.save_current(cx.cpu as int, frame);
    lemma_save(s, cx.cpu as int, frame, -1);
    let quiet = saved.with_ipc(saved.k.ipc.forgetting(slot as u8));
    lemma_elsewhere(saved, quiet);
    lemma_cancel_replies(quiet, cx, slot, 16);
    lemma_recompute(quiet.cancel_replies(cx, slot, 16), cx);
    let t = saved.cancel_thread(cx, slot);
    let thread = t.k.threads.slots@[slot];
    assert(in_range(thread));
    let (u, lost) = t.drop_pages(
        thread.vspace_root,
        thread.stack_va as int,
        thread.stack_pa,
        thread.stack_pages,
    );
    lemma_drop_pages(
        t,
        thread.vspace_root,
        thread.stack_va as int,
        thread.stack_pa,
        thread.stack_pages,
    );
    lemma_elsewhere(t, u);
    if lost is None {
        let (v, lost2) = u.drop_ipc(thread.vspace_root, thread);
        lemma_drop_pages(
            u,
            thread.vspace_root,
            thread.ipc_va as int,
            thread.ipc_pa,
            if thread.ipc_pa != 0 {
                1
            } else {
                0
            },
        );
        lemma_elsewhere(u, v);
        if lost2 is None {
            let w = v.with_spaces(v.k.spaces.thread_removed(thread.vspace_handle)).op(
                crate::hw::HwOp::FlushTlb,
            );
            lemma_elsewhere(v, w);
            let gone = Thread {
                base_priority: thread.base_priority,
                effective_priority: thread.effective_priority,
                ready_sequence: thread.ready_sequence,
                runtime_ticks: thread.runtime_ticks,
                ..Thread::empty(
                    crate::handle::generation_after(thread.generation),
                    ThreadState::Exited,
                )
            };
            let x = w.with_threads(w.k.threads.with(slot, gone));
            lemma_other_thread(w, x, slot, gone);
            lemma_schedule_after_block(x, cx);
        }
    }
}

proof fn lemma_set_priority(s: MachineView, cx: Entry, handle: u64, urgency: u64)
    requires
        s.wf(),
        orderly(s),
        cx.cpu < 4,
    ensures
        orderly(s.set_priority(cx, handle, urgency).0),
{
    if urgency <= 63 {
        match s.k.threads.resolve(s.k.task.owner(), handle) {
            Err(_) => {},
            Ok(slot) => {
                assert(0 <= slot < 16);
                let t = s.with_threads(
                    s.k.threads.with(
                        slot,
                        Thread { base_priority: urgency as u8, ..s.k.threads.slots@[slot] },
                    ),
                );
                assert forall|i: int| 0 <= i < 16 implies in_range(
                    #[trigger] t.k.threads.slots@[i],
                ) by {
                    assert(in_range(s.k.threads.slots@[i]));
                }
                assert(no_less(s, t));
                lemma_no_less(s, t, -1);
                lemma_recompute(t, cx);
                lemma_priority_changed(t.recompute(cx), cx, slot, -1);
            },
        }
    }
}

pub(crate) proof fn lemma_thread_calls(s: MachineView, cx: Entry, frame: TrapFrame)
    requires
        s.wf(),
        orderly(s),
        s.k.threads.runs(cx.cpu as int),
    ensures
        orderly(s.thread_svc(cx, frame).0),
        switched_to(s.thread_svc(cx, frame).0, cx, s.thread_svc(cx, frame).2),
{
    let sysno = frame.x@[8];
    let a = frame.x@[0];
    let b = frame.x@[1];
    if sysno == abi::SYS_THREAD_CREATE {
        lemma_thread_create(s, cx, a, b, frame.x@[2], frame.x@[3], frame.x@[4]);
    } else if sysno == abi::SYS_THREAD_EXIT {
        lemma_thread_exit(s, cx, frame);
    } else if sysno == abi::SYS_THREAD_YIELD {
        lemma_yield(s, cx, frame.with_result(0));
    } else if sysno == abi::SYS_THREAD_SET_PRIORITY {
        lemma_set_priority(s, cx, a, b);
    }
}

/// No interrupt loses a ready thread or lets one run in two places. An interrupt of the kernel
/// itself comes in only where no thread runs.
pub proof fn law_interrupts_keep_order(
    s: MachineView,
    cx: Entry,
    raw: u32,
    frame: TrapFrame,
)
    requires
        s.wf(),
        orderly(s),
        cx.cpu < 4,
        frame.spsr_el1 % 16 == 0 ==> s.k.threads.runs(cx.cpu as int),
        frame.spsr_el1 % 16 != 0 ==> idle(s.k.threads, cx.cpu as int),
    ensures
        orderly(s.irq(cx, raw, frame).0),
        switched_to(s.irq(cx, raw, frame).0, cx, s.irq(cx, raw, frame).1),
{
    let line = raw % 1024;
    let ended = s.with_ops(s.k.gic.eoir_ops(raw));
    lemma_elsewhere(s, ended);
    lemma_look_again(ended, cx, frame);
    lemma_elsewhere(s, s.op(crate::hw::HwOp::FlushTlb).with_ops(s.k.gic.eoir_ops(raw)));
    lemma_elsewhere(ended, ended.parked(cx));
    let stopped = s.disarm().with_ops(s.k.gic.eoir_ops(raw));
    lemma_elsewhere(s, stopped);
    if frame.spsr_el1 % 16 == 0 {
        lemma_yield(stopped, cx, frame);
    }
    if let Some(i) = s.k.task.binding(line, 0) {
        let binding = s.k.task.irq_bindings@[i];
        let quiet = s.with_ops(s.k.gic.disable_ops(raw % 1024)).with_ops(s.k.gic.eoir_ops(raw));
        let t = quiet.with_task(quiet.k.task.with_awaiting(i, true));
        lemma_elsewhere(s, t);
        lemma_signal(t, cx, binding.notification, binding.badge);
        lemma_look_again(t.signal(cx, binding.notification, binding.badge).0, cx, frame);
    }
}

proof fn lemma_look_again(s: MachineView, cx: Entry, frame: TrapFrame)
    requires
        orderly(s),
        cx.cpu < 4,
        frame.spsr_el1 % 16 == 0 ==> s.k.threads.runs(cx.cpu as int),
        frame.spsr_el1 % 16 != 0 ==> idle(s.k.threads, cx.cpu as int),
    ensures
        orderly(s.look_again(cx, frame).0),
        switched_to(s.look_again(cx, frame).0, cx, s.look_again(cx, frame).1),
{
    if frame.spsr_el1 % 16 == 0 {
        lemma_preempt(s, cx, frame);
    } else {
        lemma_wait_and_activate(s, cx);
    }
}

/// The order holds from the start: without threads, and with the first one.
pub proof fn law_first_thread_is_orderly(
    s: MachineView,
    cx: Entry,
    entry: u64,
    stack_top: u64,
    ipc_pa: u64,
)
    requires
        ranged(s.k.threads),
        forall|i: int|
            0 <= i < 16 ==> (#[trigger] s.k.threads.slots@[i]).state == ThreadState::Free,
    ensures
        orderly(s),
        orderly(s.first_thread(cx, entry, stack_top, ipc_pa)),
{
    let t = s.first_thread(cx, entry, stack_top, ipc_pa);
    assert forall|i: int| 0 <= i < 16 implies in_range(#[trigger] t.k.threads.slots@[i]) by {
        if i != 0 {
            assert(t.k.threads.slots@[i] == s.k.threads.slots@[i]);
        }
    }
    assert forall|i: int| 0 <= i < 16 && i != -1 implies #[trigger] slot_announced(
        t.k.threads,
        t.k.sched,
        i,
    ) by {
        if i != 0 {
            assert(t.k.threads.slots@[i] == s.k.threads.slots@[i]);
        }
    }
    assert forall|i: int|
        0 <= i < 16 && (#[trigger] t.k.threads.slots@[i]).state == ThreadState::Running implies i
        == 0 by {
        if i != 0 {
            assert(t.k.threads.slots@[i] == s.k.threads.slots@[i]);
        }
    }
}

} // verus!
