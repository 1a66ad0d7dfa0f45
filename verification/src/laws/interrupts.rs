//! From an interrupt line to the thread that waits for it, and back.
use crate::abi;
use crate::hw::HwOp;
use crate::interrupt::lines::{self, Distributor};
use crate::laws::choices::{self, enterable, most_urgent, ready_on, taken_over};
use crate::laws::delivery::later;
use crate::laws::exchange::{self, asks, let_go, results_in, runs};
use crate::laws::scheduling::orderly;
use crate::laws::{delivery, grants, scheduling};
use crate::machine::{Dispatch, Entry, MachineView};
use crate::object::task::{IrqBinding, TaskResources};
use crate::object::thread::ThreadState;
use crate::syscall::dispatch::TrapFrame;
use vstd::prelude::*;

verus! {

/// The task may use this interrupt.
pub open spec fn granted(task: TaskResources, line: u32) -> bool {
    exists|i: int| 0 <= i < task.irq_grant_count && (#[trigger] task.irq_grants@[i]).intid == line
}

/// The first grant of the interrupt is in place `i`.
pub open spec fn granted_first(task: TaskResources, line: u32, i: int) -> bool {
    &&& 0 <= i < task.irq_grant_count
    &&& task.irq_grants@[i].intid == line
    &&& forall|j: int| 0 <= j < i ==> (#[trigger] task.irq_grants@[j]).intid != line
}

/// The interrupt is bound.
pub open spec fn bound(task: TaskResources, line: u32) -> bool {
    exists|i: int|
        0 <= i < task.irq_binding_count && (#[trigger] task.irq_bindings@[i]).intid == line
}

proof fn lemma_grant(task: TaskResources, line: u32, from: int)
    requires
        0 <= from,
        forall|j: int| 0 <= j < from ==> (#[trigger] task.irq_grants@[j]).intid != line,
    ensures
        match task.irq_grant(line, from) {
            Some(i) => granted_first(task, line, i),
            None => forall|i: int|
                0 <= i < task.irq_grant_count ==> (#[trigger] task.irq_grants@[i]).intid != line,
        },
    decreases task.irq_grant_count - from,
{
    if from < task.irq_grant_count && task.irq_grants@[from].intid != line {
        lemma_grant(task, line, from + 1);
    }
}

proof fn lemma_bound(task: TaskResources, line: u32, from: int)
    requires
        0 <= from,
    ensures
        match task.binding(line, from) {
            Some(i) => from <= i < task.irq_binding_count && task.irq_bindings@[i].intid == line,
            None => forall|i: int|
                from <= i < task.irq_binding_count ==> (#[trigger] task.irq_bindings@[i]).intid
                    != line,
        },
    decreases task.irq_binding_count - from,
{
    if from < task.irq_binding_count && task.irq_bindings@[from].intid != line {
        lemma_bound(task, line, from + 1);
    }
}

/// The processor that the number in a request stands for.
pub open spec fn processor_for(cx: Entry, number: u64) -> u64 {
    if number == u64::MAX {
        cx.cpu as u64
    } else {
        number
    }
}

/// A task binds an interrupt that was granted to it to a notification of its own, with badges. Then
/// the line is enabled and goes to the processor that was asked for alone, triggered as the grant
/// says; the other lines are as they were. The binding is recorded and waits for no
/// acknowledgement. A line is bound once at most.
#[verifier::spinoff_prover]
pub proof fn law_bound_line_is_as_asked(
    s: MachineView,
    cx: Entry,
    frame: TrapFrame,
    d: Distributor,
    line: int,
    place: int,
)
    requires
        asks(s, cx, frame, abi::SYS_IRQ_BIND),
        s.k.gic.is_ready(),
        frame.x@[0] < 1020,
        0 <= line < 1024,
        granted_first(s.k.task, frame.x@[0] as u32, place) || !granted(
            s.k.task,
            frame.x@[0] as u32,
        ),
    ensures
        ({
            let intid = frame.x@[0];
            let notification = frame.x@[1];
            let badge = frame.x@[2];
            let cpu = processor_for(cx, frame.x@[3]);
            let count = s.k.task.irq_binding_count;
            let level = s.k.task.irq_grants@[place].flags % 4 == 0;
            let (t, result, next) = s.svc_frame(cx, frame);
            let more = t.ops.skip(s.ops.len() as int);
            let e = d.after_all(more);
            &&& next == Dispatch::Return
            &&& if cpu >= s.k.smp.cpu_count {
                t == s && results_in(frame, result, abi::SYS_ERR_INVALID)
            } else if intid < 32 {
                t == s && results_in(frame, result, 1)
            } else if !granted(s.k.task, intid as u32) {
                t == s && results_in(frame, result, 2)
            } else if notification == 0 || badge == 0 || s.k.ipc.find_notification(
                s.k.task.owner(),
                notification,
            ) is Err {
                t == s && results_in(frame, result, abi::SYS_ERR_INVALID)
            } else if count >= 16 || bound(s.k.task, intid as u32) {
                t == s && results_in(frame, result, 3)
            } else {
                &&& results_in(frame, result, 0)
                &&& t.ops.take(s.ops.len() as int) == s.ops
                &&& (e.enabled)(line) == (line == intid || (d.enabled)(line))
                &&& line == intid ==> e.targets(line) == 1u32 << (cpu as u32) && e.trigger(line)
                    == if level {
                    0u32
                } else {
                    2
                }
                &&& line != intid ==> e.targets(line) == d.targets(line) && e.trigger(line)
                    == d.trigger(line) && (e.pending)(line) == (d.pending)(line)
                &&& t.k.task.irq_binding_count == count + 1
                &&& t.k.task.irq_bindings@[count as int] == (IrqBinding {
                    intid: intid as u32,
                    notification,
                    badge,
                    awaiting_ack: false,
                })
                &&& forall|i: int|
                    0 <= i < count ==> #[trigger] t.k.task.irq_bindings@[i]
                        == s.k.task.irq_bindings@[i]
                &&& t.k.threads == s.k.threads
                &&& t.k.ipc == s.k.ipc
            }
        }),
{
    let intid = frame.x@[0];
    let id = intid as u32;
    let cpu = processor_for(cx, frame.x@[3]);
    let level = s.k.task.irq_grants@[place].flags % 4 == 0;
    lemma_grant(s.k.task, id, 0);
    lemma_bound(s.k.task, id, 0);
    let (t, result, next) = s.svc_frame(cx, frame);
    if let Some(i) = s.k.task.irq_grant(id, 0) {
        assert(s.k.task.irq_grants@[i].intid == id);
        assert(granted(s.k.task, id));
        if i < place {
            assert(s.k.task.irq_grants@[i].intid != id);
        }
        if place < i {
            assert(s.k.task.irq_grants@[place].intid != id);
        }
    }
    if t != s {
        let a = s.k.gic.configure_ops(id, level, cpu as usize);
        let b = s.k.gic.enable_ops(id);
        assert(t.ops =~= s.ops + (a + b));
        assert(t.ops.skip(s.ops.len() as int) =~= a + b);
        assert(t.ops.take(s.ops.len() as int) =~= s.ops);
        lines::lemma_after_both(d, a, b);
        lines::law_configured_line_is_as_asked(s.k.gic, d, id, level, cpu as usize, line);
        lines::law_enabling_reaches_one_line(s.k.gic, d.after_all(a), id, line);
    }
}

/// An acknowledgement is taken only of an interrupt that was delivered and not acknowledged yet.
/// Then its line alone is enabled again.
pub proof fn law_acknowledged_line_is_enabled(
    s: MachineView,
    cx: Entry,
    frame: TrapFrame,
    d: Distributor,
    line: int,
)
    requires
        asks(s, cx, frame, abi::SYS_IRQ_ACK),
        s.k.gic.is_ready(),
        32 <= frame.x@[0] < 1020,
        0 <= line < 1024,
    ensures
        ({
            let intid = frame.x@[0];
            let place = s.k.task.binding(intid as u32, 0);
            let (t, result, next) = s.svc_frame(cx, frame);
            let e = d.after_all(t.ops.skip(s.ops.len() as int));
            &&& next == Dispatch::Return
            &&& t.k.threads == s.k.threads
            &&& t.k.ipc == s.k.ipc
            &&& if bound(s.k.task, intid as u32) && s.k.task.irq_bindings@[place->0].awaiting_ack {
                &&& results_in(frame, result, 0)
                &&& t.ops.take(s.ops.len() as int) == s.ops
                &&& (e.enabled)(line) == (line == intid || (d.enabled)(line))
                &&& e.word == d.word
                &&& t.k.task.irq_binding_count == s.k.task.irq_binding_count
                &&& t.k.task.irq_bindings@[place->0] == (IrqBinding {
                    awaiting_ack: false,
                    ..s.k.task.irq_bindings@[place->0]
                })
                &&& forall|i: int|
                    0 <= i < 16 && i != place->0 ==> #[trigger] t.k.task.irq_bindings@[i]
                        == s.k.task.irq_bindings@[i]
            } else {
                t == s && results_in(frame, result, 1)
            }
        }),
{
    let id = frame.x@[0] as u32;
    lemma_bound(s.k.task, id, 0);
    let (t, result, next) = s.svc_frame(cx, frame);
    if let Some(i) = s.k.task.binding(id, 0) {
        assert(s.k.task.irq_bindings@[i].intid == id);
        assert(bound(s.k.task, id));
        if s.k.task.irq_bindings@[i].awaiting_ack {
            let a = s.k.gic.enable_ops(id);
            assert(t.ops =~= s.ops + a);
            assert(t.ops.skip(s.ops.len() as int) =~= a);
            assert(t.ops.take(s.ops.len() as int) =~= s.ops);
            lines::law_enabling_reaches_one_line(s.k.gic, d, id, line);
        }
    }
}

/// A bound interrupt can be unbound: its line alone is disabled and its binding is gone. The last
/// binding takes its place; the others stay.
pub proof fn law_unbound_line_is_disabled(
    s: MachineView,
    cx: Entry,
    frame: TrapFrame,
    d: Distributor,
    line: int,
)
    requires
        asks(s, cx, frame, abi::SYS_IRQ_UNBIND),
        s.k.gic.is_ready(),
        32 <= frame.x@[0] < 1020,
        0 <= line < 1024,
    ensures
        ({
            let intid = frame.x@[0];
            let place = s.k.task.binding(intid as u32, 0);
            let last = s.k.task.irq_binding_count - 1;
            let (t, result, next) = s.svc_frame(cx, frame);
            let e = d.after_all(t.ops.skip(s.ops.len() as int));
            &&& next == Dispatch::Return
            &&& t.k.threads == s.k.threads
            &&& t.k.ipc == s.k.ipc
            &&& if bound(s.k.task, intid as u32) {
                &&& results_in(frame, result, 0)
                &&& t.ops.take(s.ops.len() as int) == s.ops
                &&& (e.enabled)(line) == (line != intid && (d.enabled)(line))
                &&& e.word == d.word
                &&& t.k.task.irq_binding_count == last
                &&& forall|j: int|
                    0 <= j < last ==> #[trigger] t.k.task.irq_bindings@[j]
                        == s.k.task.irq_bindings@[if j == place->0 {
                        last
                    } else {
                        j
                    }]
            } else {
                t == s && results_in(frame, result, 1)
            }
        }),
{
    let id = frame.x@[0] as u32;
    lemma_bound(s.k.task, id, 0);
    let (t, result, next) = s.svc_frame(cx, frame);
    if let Some(i) = s.k.task.binding(id, 0) {
        assert(s.k.task.irq_bindings@[i].intid == id);
        assert(bound(s.k.task, id));
        let a = s.k.gic.disable_ops(id);
        assert(t.ops =~= s.ops + a);
        assert(t.ops.skip(s.ops.len() as int) =~= a);
        assert(t.ops.take(s.ops.len() as int) =~= s.ops);
        lines::law_enabling_reaches_one_line(s.k.gic, d, id, line);
    }
}

/// The processor was told, after what was asked before, that the interrupt with this token is over.
pub open spec fn ended(s: MachineView, t: MachineView, token: u32) -> bool {
    &&& exists|i: int|
        s.ops.len() <= i < t.ops.len() && #[trigger] t.ops[i] == (HwOp::CpuWrite {
            offset: 0x10,
            value: token,
        })
    &&& exists|i: int|
        s.ops.len() <= i < t.ops.len() && #[trigger] t.ops[i] == (HwOp::CpuWrite {
            offset: 0x1000,
            value: token,
        })
}

proof fn lemma_ended(s: MachineView, a: MachineView, b: MachineView, t: MachineView, token: u32)
    requires
        later(s, a),
        s.k.gic.is_ready(),
        b.ops == a.ops + s.k.gic.eoir_ops(token),
        b.ops.len() <= t.ops.len(),
        forall|i: int| 0 <= i < b.ops.len() ==> #[trigger] t.ops[i] == b.ops[i],
    ensures
        ended(s, t, token),
{
    let n = a.ops.len() as int;
    assert(b.ops[n] == s.k.gic.eoir_ops(token)[0]);
    assert(b.ops[n + 1] == s.k.gic.eoir_ops(token)[1]);
    assert(t.ops[n] == b.ops[n]);
    assert(t.ops[n + 1] == b.ops[n + 1]);
}

/// An interrupt of a device that the task has bound, while EL0 runs: its badges reach the
/// notification that it is bound to. The first thread that waits there goes on with them and all
/// that were pending; if none waits, they stay pending. The binding waits for the acknowledgement,
/// the processor is told that the interrupt is over, and the thread that was interrupted goes on,
/// at once or when its turn comes.
#[verifier::spinoff_prover]
#[verifier::rlimit(40)]
pub proof fn law_interrupt_signals_its_badge(
    s: MachineView,
    cx: Entry,
    raw: u32,
    frame: TrapFrame,
    i: int,
)
    requires
        runs(s, cx),
        s.k.gic.is_ready(),
        32 <= raw % 1024 < 1020,
        s.k.timer.intid != raw % 1024,
        s.k.task.binding(raw % 1024, 0) == Some(i),
        s.k.task.irq_bindings@[i].badge != 0,
        s.k.ipc.find_notification(
            s.k.task.owner(),
            s.k.task.irq_bindings@[i].notification,
        ) is Ok,
        frame.spsr_el1 % 16 == 0,
    ensures
        ({
            let binding = s.k.task.irq_bindings@[i];
            let me = s.current(cx) as int;
            let slot = s.k.ipc.find_notification(
                s.k.task.owner(),
                binding.notification,
            )->Ok_0;
            let before = s.k.ipc.notifications@[slot];
            let (t, next) = s.irq(cx, raw, frame);
            let after = t.k.ipc.notifications@[slot];
            &&& ended(s, t, raw)
            &&& t.k.task.irq_bindings@[i].awaiting_ack
            &&& exchange::goes_on(t, cx, me, frame, next)
            &&& exchange::one_notification(s, t, slot)
            &&& if before.waiters.waiting().len() == 0 {
                &&& after.pending == before.pending | binding.badge
                &&& after.waiters == before.waiters
                &&& exchange::others_undisturbed(s, t, me, -1, -1)
            } else {
                let first = before.waiters.waiting().first() as int;
                &&& after.pending == 0
                &&& after.waiters.waiting() == before.waiters.waiting().drop_first()
                &&& let_go(s, t, first, before.pending | binding.badge)
                &&& exchange::others_undisturbed(s, t, me, first, -1)
            }
        }),
{
    let line = raw % 1024;
    lemma_bound(s.k.task, line, 0);
    let binding = s.k.task.irq_bindings@[i];
    let a = s.with_ops(s.k.gic.disable_ops(line));
    let quiet = a.with_ops(s.k.gic.eoir_ops(raw));
    let q = quiet.with_task(quiet.k.task.with_awaiting(i, true));
    assert(runs(q, cx)) by {
        assert(q.k.task.owner() == s.k.task.owner());
        assert forall|j: int| 0 <= j < q.k.task.owned_count implies (
        #[trigger] q.k.task.owned@[j]).wf() by {
            assert(s.k.task.owned@[j].wf());
        }
    }
    exchange::lemma_signalled(q, cx, binding.notification, binding.badge, frame);
    let w = q.signal(cx, binding.notification, binding.badge).0;
    grants::lemma_signal_later(q, cx, binding.notification, binding.badge);
    delivery::lemma_preempt_later(w, cx, frame);
    let (t, next) = s.irq(cx, raw, frame);
    assert(t == w.preempt_if_needed(cx, frame).0);
    assert(later(s, a));
    delivery::lemma_later(q, w, t);
    lemma_ended(s, a, quiet, t, raw);
}


/// When the slice of a thread ends, the slice is stopped, the processor is told that the interrupt
/// is over, and the thread gives way: the most urgent thread of those that are at least as urgent
/// runs, or the same one if there is none.
#[verifier::spinoff_prover]
pub proof fn law_slice_end_gives_way(
    s: MachineView,
    cx: Entry,
    raw: u32,
    frame: TrapFrame,
    slot: int,
)
    requires
        runs(s, cx),
        orderly(s),
        scheduling::numbered(s),
        s.k.sched.ready_sequence < u64::MAX,
        frame.elr_el1 != 0,
        frame.spsr_el1 % 16 == 0,
        s.k.threads.slots@[s.current(cx) as int].affinity_cpu == cx.cpu,
        s.k.spaces.find_for(
            s.k.task.owner(),
            s.k.threads.slots@[s.current(cx) as int].vspace_handle,
        ) is Ok,
        s.k.gic.is_ready(),
        16 <= raw % 1024 < 1020,
        s.k.timer.intid == raw % 1024,
        most_urgent(s, cx.cpu as int, s.current(cx) as int, slot) || forall|other: int|
            0 <= other < 16 ==> !#[trigger] ready_on(s, cx.cpu as int, other),
    ensures
        ({
            let me = s.current(cx) as int;
            let mine = s.k.threads.slots@[me].effective_priority;
            let alone = forall|other: int|
                0 <= other < 16 ==> !#[trigger] ready_on(s, cx.cpu as int, other);
            let (t, next) = s.irq(cx, raw, frame);
            &&& ended(s, t, raw)
            &&& t.k.threads.slots@[me].context == frame
            &&& if alone || s.k.threads.slots@[slot].effective_priority < mine {
                taken_over(t, cx, me, next)
            } else if enterable(s, slot) {
                taken_over(t, cx, slot, next) && t.k.threads.slots@[me].state == ThreadState::Ready
            } else {
                next == Dispatch::Halt
            }
        }),
{
    let me = s.current(cx) as int;
    let cpu = cx.cpu as int;
    let a = s.disarm();
    let q = a.with_ops(s.k.gic.eoir_ops(raw));
    let (t, next) = s.irq(cx, raw, frame);
    assert(t == q.yield_current(cx, frame).0);
    choices::law_yield_gives_way(q, cx, frame);
    choices::lemma_yield_later(q, cx, frame);
    lemma_ended(s, a, q, t, raw);
    assert forall|i: int| #[trigger] ready_on(q, cpu, i) == ready_on(s, cpu, i) by {}
    assert(enterable(q, slot) == enterable(s, slot));
    if most_urgent(s, cpu, me, slot) {
        assert(ready_on(s, cpu, slot));
        assert(most_urgent(q, cpu, me, slot)) by {
            assert forall|other: int|
                0 <= other < 16 && other != me && #[trigger] ready_on(q, cpu, other) implies {
                let mine = q.k.threads.slots@[slot];
                let theirs = q.k.threads.slots@[other];
                ||| theirs.effective_priority < mine.effective_priority
                ||| theirs.effective_priority == mine.effective_priority && (mine.ready_sequence
                    < theirs.ready_sequence || (mine.ready_sequence == theirs.ready_sequence && slot
                    <= other))
            } by {
                assert(ready_on(s, cpu, other));
            }
        }
        if s.k.threads.slots@[slot].effective_priority
            < s.k.threads.slots@[me].effective_priority {
            assert forall|other: int|
                0 <= other < 16 && #[trigger] ready_on(
                    q,
                    cpu,
                    other,
                ) implies q.k.threads.slots@[other].effective_priority
                < q.k.threads.slots@[me].effective_priority by {
                assert(ready_on(s, cpu, other));
            }
        }
    }
}

/// A processor that is asked to look at its threads again goes over to a more urgent one, if there
/// is one, and otherwise goes on. One that was idle takes the most urgent thread.
#[verifier::spinoff_prover]
pub proof fn law_asked_processor_looks_again(
    s: MachineView,
    cx: Entry,
    raw: u32,
    frame: TrapFrame,
    slot: int,
)
    requires
        s.wf(),
        cx.cpu < 4,
        orderly(s),
        s.k.gic.is_ready(),
        raw % 1024 == 0,
        frame.spsr_el1 % 16 == 0 ==> runs(s, cx),
        most_urgent(s, cx.cpu as int, -1, slot),
        enterable(s, slot),
    ensures
        ({
            let (t, next) = s.irq(cx, raw, frame);
            let mine = s.k.threads.slots@[s.current(cx) as int].effective_priority;
            if frame.spsr_el1 % 16 != 0 || s.k.threads.slots@[slot].effective_priority > mine {
                taken_over(t, cx, slot, next)
            } else {
                next == Dispatch::Return && t.k.threads.current == s.k.threads.current
            }
        }),
{
    let cpu = cx.cpu as int;
    let q = s.with_ops(s.k.gic.eoir_ops(raw));
    assert(enterable(q, slot));
    assert(most_urgent(q, cpu, -1, slot)) by {
        assert(ready_on(s, cpu, slot));
        assert forall|other: int|
            0 <= other < 16 && other != -1 && #[trigger] ready_on(q, cpu, other) implies {
            let mine = q.k.threads.slots@[slot];
            let theirs = q.k.threads.slots@[other];
            ||| theirs.effective_priority < mine.effective_priority
            ||| theirs.effective_priority == mine.effective_priority && (mine.ready_sequence
                < theirs.ready_sequence || (mine.ready_sequence == theirs.ready_sequence && slot
                <= other))
        } by {
            assert(ready_on(s, cpu, other));
        }
    }
    if frame.spsr_el1 % 16 == 0 {
        assert(runs(q, cx));
        choices::law_more_urgent_thread_preempts(q, cx, frame, slot);
    } else {
        choices::law_idle_processor_takes_most_urgent(q, cx);
    }
}

/// An interrupt that stands for nothing here changes nothing: a spurious one is not even ended, and
/// one that nobody bound is.
pub proof fn law_stray_interrupt_changes_nothing(
    s: MachineView,
    cx: Entry,
    raw: u32,
    frame: TrapFrame,
)
    requires
        s.k.gic.is_ready(),
        raw % 1024 > 2,
        raw % 1024 != s.k.timer.intid,
        !bound(s.k.task, raw % 1024),
    ensures
        ({
            let (t, next) = s.irq(cx, raw, frame);
            &&& next == Dispatch::Return
            &&& t.k == s.k
            &&& t.tables == s.tables
            &&& if raw % 1024 >= 1020 {
                t.ops == s.ops
            } else {
                ended(s, t, raw)
            }
        }),
{
    lemma_bound(s.k.task, raw % 1024, 0);
    if let Some(i) = s.k.task.binding(raw % 1024, 0) {
        assert(s.k.task.irq_bindings@[i].intid == raw % 1024);
    }
    if raw % 1024 < 1020 {
        let q = s.with_ops(s.k.gic.eoir_ops(raw));
        assert(later(s, s));
        lemma_ended(s, s, q, q, raw);
    }
}

/// A processor that is asked to drop its translations does, and says that the interrupt is over;
/// one that is asked to stop is marked as stopped, without a slice, and stops for good.
pub proof fn law_asked_processor_obeys(s: MachineView, cx: Entry, raw: u32, frame: TrapFrame)
    requires
        s.k.gic.is_ready(),
        raw % 1024 == 1 || raw % 1024 == 2,
        cx.cpu < 4,
    ensures
        ({
            let (t, next) = s.irq(cx, raw, frame);
            &&& ended(s, t, raw)
            &&& t.k.threads == s.k.threads
            &&& t.k.ipc == s.k.ipc
            &&& t.tables == s.tables
            &&& if raw % 1024 == 1 {
                &&& next == Dispatch::Return
                &&& t.k == s.k
                &&& exists|i: int|
                    s.ops.len() <= i < t.ops.len() && #[trigger] t.ops[i] == HwOp::FlushTlb
            } else {
                &&& next == Dispatch::Park
                &&& t.k.smp.stopped_mask & (1u64 << (cx.cpu as u64)) != 0
                &&& t.k.smp.stopped_mask | s.k.smp.stopped_mask == t.k.smp.stopped_mask
                &&& t.k.smp.online_mask == s.k.smp.online_mask
                &&& !choices::slice_runs(t.ops)
            }
        }),
{
    let (t, next) = s.irq(cx, raw, frame);
    if raw % 1024 == 1 {
        let a = s.op(HwOp::FlushTlb);
        assert(later(s, a));
        lemma_ended(s, a, t, t, raw);
        assert(t.ops[s.ops.len() as int] == HwOp::FlushTlb);
    } else {
        let b = s.with_ops(s.k.gic.eoir_ops(raw));
        assert(later(s, s));
        lemma_ended(s, s, b, t, raw);
        let mask = s.k.smp.stopped_mask;
        let me = cx.cpu as u64;
        assert((mask | (1u64 << me)) & (1u64 << me) != 0 && (mask | (1u64 << me)) | mask == mask | (
        1u64 << me)) by (bit_vector)
            requires
                me < 4,
        ;
        let c = b.disarm();
        choices::lemma_slice(b.ops, b.k.timer.disarm_op());
        choices::lemma_slice(c.ops, HwOp::Barrier);
        choices::lemma_slice(c.ops.push(HwOp::Barrier), HwOp::Sev);
    }
}


/// What the end of a task asks of the interrupt controller disables every line that the task had
/// bound, and no other.
pub proof fn law_ended_task_is_quiet(s: MachineView, d: Distributor, k: int, line: int)
    requires
        s.k.gic.is_ready(),
        0 <= k <= s.k.task.irq_binding_count,
        0 <= line < 1024,
        forall|i: int|
            0 <= i < k ==> 32 <= (#[trigger] s.k.task.irq_bindings@[i]).intid < 1020,
    ensures
        (d.after_all(s.k.task.disable_bound(s.k.gic, k)).enabled)(line) == ((d.enabled)(line)
            && forall|i: int| 0 <= i < k ==> (#[trigger] s.k.task.irq_bindings@[i]).intid != line),
    decreases k,
{
    if k > 0 {
        law_ended_task_is_quiet(s, d, k - 1, line);
        let a = s.k.task.disable_bound(s.k.gic, k - 1);
        let id = s.k.task.irq_bindings@[k - 1].intid;
        lines::lemma_after_both(d, a, s.k.gic.disable_ops(id));
        lines::law_enabling_reaches_one_line(s.k.gic, d.after_all(a), id, line);
    }
}

/// A thread that becomes ready on another processor, which runs a thread that is not more urgent,
/// has that processor asked to look again. A processor that runs something more urgent is left
/// alone.
pub proof fn law_other_processor_is_asked(s: MachineView, cx: Entry, slot: int)
    requires
        s.k.gic.is_ready(),
        cx.cpu < 4,
        0 <= slot < 16,
        ({
            let cpu = s.k.threads.slots@[slot].affinity_cpu;
            &&& cpu < s.k.smp.cpu_count
            &&& cpu < 4
            &&& cpu != cx.cpu
            &&& s.k.smp.online_mask & (1u64 << (cpu as usize)) != 0
            &&& s.k.threads.current@[cpu as int] < 16
            &&& s.k.threads.current@[cpu as int] != slot
            &&& s.k.threads.slots@[s.k.threads.current@[cpu as int] as int].state
                == ThreadState::Running
        }),
    ensures
        ({
            let cpu = s.k.threads.slots@[slot].affinity_cpu;
            let mine = s.k.threads.slots@[slot].effective_priority;
            let theirs = s.k.threads.slots@[s.k.threads.current@[cpu as int] as int].effective_priority;
            let t = s.thread_ready(cx, slot);
            if mine >= theirs {
                exists|i: int, value: u32|
                    s.ops.len() <= i < t.ops.len() && #[trigger] t.ops[i] == (HwOp::DistWrite {
                        offset: 0xf00,
                        value,
                    }) && value & 0xf == 0 && (value >> 16) & 0xff == 1u8 << (cpu as usize)
                        && #[trigger] (value >> 24) & 3 == 0
            } else {
                t.ops == s.ops.push(HwOp::Sev)
            }
        }),
{
    let cpu = s.k.threads.slots@[slot].affinity_cpu;
    let t = s.thread_ready(cx, slot);
    let mask = 1u8 << (cpu as usize);
    lines::lemma_mask(cpu as u8);
    let mine = s.k.threads.slots@[slot].effective_priority;
    let theirs = s.k.threads.slots@[s.k.threads.current@[cpu as int] as int].effective_priority;
    if mine >= theirs {
        lines::law_software_interrupt_names_its_targets(s.k.gic, 0, mask);
        let ops = s.k.gic.sgi_ops(0, mask);
        let value = choose|value: u32|
            #![trigger ops.contains(HwOp::DistWrite { offset: 0xf00, value })]
            {
                &&& ops.contains(HwOp::DistWrite { offset: 0xf00, value })
                &&& value & 0xf == 0
                &&& (value >> 16) & 0xff == mask
                &&& (value >> 24) & 3 == 0
            };
        let j = choose|j: int|
            0 <= j < ops.len() && ops[j] == (HwOp::DistWrite { offset: 0xf00, value });
        let i = s.ops.len() + 1 + j;
        assert(t.ops[i] == ops[j]);
        assert((value >> 24) & 3 == 0);
    }
}

} // verus!
