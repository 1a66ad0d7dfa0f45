//! What the calls on endpoints and notifications do to the threads on both sides: who goes on, who
//! waits, in which order, and with what.
use crate::abi;
use crate::laws::delivery::{got, later, received};
use crate::laws::{delivery, messages, scheduling, stillness};
use crate::machine::{Dispatch, Entry, MachineView};
use crate::object::ipc::{self, PendingSender};
use crate::object::thread::{Thread, ThreadState};
use crate::syscall::dispatch::TrapFrame;
use vstd::prelude::*;

verus! {

/// `b` holds `value` in the result register, and in every other register what `a` holds.
pub open spec fn results_in(a: TrapFrame, b: TrapFrame, value: u64) -> bool {
    &&& b.x@[0] == value
    &&& forall|i: int| 1 <= i < 31 ==> #[trigger] b.x@[i] == a.x@[i]
    &&& b.sp_el0 == a.sp_el0
    &&& b.elr_el1 == a.elr_el1
    &&& b.spsr_el1 == a.spsr_el1
    &&& b.q == a.q
}

/// The thread runs, or will when its turn comes.
pub open spec fn awake(thread: Thread) -> bool {
    thread.state == ThreadState::Ready || thread.state == ThreadState::Running
}

/// Whatever the scheduler did meanwhile, the thread is what it was: it waits if it waited, can run
/// if it could, and has the same registers, memory and own priority.
pub open spec fn undisturbed(a: Thread, b: Thread) -> bool {
    &&& b == (Thread {
        state: b.state,
        running_cpu: b.running_cpu,
        effective_priority: b.effective_priority,
        ready_sequence: b.ready_sequence,
        runtime_ticks: b.runtime_ticks,
        ..a
    })
    &&& a.state == b.state || (awake(a) && awake(b))
}

/// Thread `slot`, if it waited, goes on, and the call in which it waited returns `value`.
pub open spec fn let_go(s: MachineView, t: MachineView, slot: int, value: u64) -> bool {
    s.k.threads.slots@[slot].state == ThreadState::Blocked ==> {
        let a = s.k.threads.slots@[slot];
        let b = t.k.threads.slots@[slot];
        &&& awake(b)
        &&& results_in(a.context, b.context, value)
        &&& b == (Thread {
            state: b.state,
            context: b.context,
            running_cpu: b.running_cpu,
            effective_priority: b.effective_priority,
            ready_sequence: b.ready_sequence,
            runtime_ticks: b.runtime_ticks,
            ..a
        })
    }
}

/// The thread that made the call goes on with the registers in `frame`: at once, or when its turn
/// comes again.
pub open spec fn goes_on(t: MachineView, cx: Entry, slot: int, frame: TrapFrame, next: Dispatch)
    -> bool {
    if next == Dispatch::Return {
        t.k.threads.slots@[slot].state == ThreadState::Running && t.k.threads.current@[cx.cpu as int]
            == slot
    } else {
        t.k.threads.slots@[slot].state == ThreadState::Ready && t.k.threads.slots@[slot].context
            == frame
    }
}

/// The thread that made the call waits, with the registers in `frame`.
pub open spec fn waits(t: MachineView, slot: int, frame: TrapFrame) -> bool {
    t.k.threads.slots@[slot].state == ThreadState::Blocked && t.k.threads.slots@[slot].context
        == frame
}

/// A thread of the task makes the call with this number.
pub open spec fn asks(s: MachineView, cx: Entry, frame: TrapFrame, number: u64) -> bool {
    &&& runs(s, cx)
    &&& frame.x@[8] == number
}

/// A thread of the task runs on this processor.
pub open spec fn runs(s: MachineView, cx: Entry) -> bool {
    &&& s.wf()
    &&& s.k.task.owner() != 0
    &&& s.k.threads.initialized
    &&& s.k.threads.runs(cx.cpu as int)
    &&& s.k.threads.slots@[s.current(cx) as int].state == ThreadState::Running
}

/// Every thread but those named is undisturbed.
pub open spec fn others_undisturbed(s: MachineView, t: MachineView, a: int, b: int, c: int) -> bool {
    forall|i: int|
        0 <= i < 16 && i != a && i != b && i != c ==> undisturbed(
            s.k.threads.slots@[i],
            #[trigger] t.k.threads.slots@[i],
        )
}

/// A thread is woken; the others are left alone.
pub(crate) proof fn lemma_wake(s: MachineView, cx: Entry, slot: int, value: u64)
    requires
        0 <= slot < 16,
    ensures
        ({
            let t = s.wake(cx, slot, value);
            &&& others_undisturbed(s, t, slot, slot, slot)
            &&& let_go(s, t, slot, value)
            &&& s.k.threads.slots@[slot].state != ThreadState::Blocked ==> t == s
            &&& t.k.threads.current == s.k.threads.current
            &&& t.k.threads.initialized == s.k.threads.initialized
            &&& t.k.ipc == s.k.ipc
            &&& t.k.task == s.k.task
        }),
{
}

pub(crate) proof fn lemma_recompute(s: MachineView, cx: Entry)
    requires
        stillness::replies_sound(s.k.ipc.replies),
    ensures
        ({
            let t = s.recompute(cx);
            &&& others_undisturbed(s, t, -1, -1, -1)
            &&& forall|i: int|
                0 <= i < 16 ==> (#[trigger] t.k.threads.slots@[i]).state
                    == s.k.threads.slots@[i].state
            &&& t.k.threads.current == s.k.threads.current
            &&& t.k.ipc == s.k.ipc
            &&& t.k.task == s.k.task
        }),
{
    stillness::lemma_recompute(s, cx);
    let t = s.recompute(cx);
    assert forall|i: int| 0 <= i < 16 implies undisturbed(
        s.k.threads.slots@[i],
        #[trigger] t.k.threads.slots@[i],
    ) && t.k.threads.slots@[i].state == s.k.threads.slots@[i].state by {
        assert(stillness::reranked_thread(s.k.threads.slots@[i], t.k.threads.slots@[i]));
    }
}

pub(crate) proof fn lemma_next_is_ready(s: MachineView, cpu: int)
    ensures
        match s.next_thread(cpu) {
            Some(slot) => 0 <= slot < 16 && s.k.threads.slots@[slot].state == ThreadState::Ready,
            None => true,
        },
{
    scheduling::lemma_next_is_first(s, cpu);
}

pub(crate) proof fn lemma_activate(s: MachineView, cx: Entry, slot: int)
    requires
        0 <= slot < 16,
        s.k.threads.slots@[slot].state == ThreadState::Ready,
    ensures
        ({
            let (t, next) = s.activate(cx, slot);
            &&& others_undisturbed(s, t, -1, -1, -1)
            &&& forall|i: int|
                0 <= i < 16 && i != slot ==> (#[trigger] t.k.threads.slots@[i])
                    == s.k.threads.slots@[i]
            &&& next != Dispatch::Return
            &&& t.k.ipc == s.k.ipc
            &&& t.k.task == s.k.task
        }),
{
}

/// After a thread had its way, the one that called goes on, at once or later.
#[verifier::spinoff_prover]
proof fn lemma_preempt(s: MachineView, cx: Entry, frame: TrapFrame)
    requires
        s.k.threads.runs(cx.cpu as int),
        s.k.threads.initialized,
        s.k.threads.slots@[s.current(cx) as int].state == ThreadState::Running,
    ensures
        ({
            let (t, next) = s.preempt_if_needed(cx, frame);
            &&& others_undisturbed(s, t, s.current(cx) as int, -1, -1)
            &&& goes_on(t, cx, s.current(cx) as int, frame, next)
            &&& t.k.ipc == s.k.ipc
            &&& t.k.task == s.k.task
        }),
{
    let cpu = cx.cpu as int;
    let me = s.current(cx) as int;
    let a = s.searched(cpu);
    lemma_next_is_ready(s, cpu);
    match s.next_thread(cpu) {
        None => {},
        Some(next) => {
            let b = a.charge_current(cx);
            let c = b.leave(cx, frame, ThreadState::Ready);
            let d = c.thread_ready(cx, me);
            assert(c.k.threads.slots@[me].state == ThreadState::Ready);
            assert(c.k.threads.slots@[me].context == frame);
            assert(others_undisturbed(s, c, me, -1, -1));
            assert(others_undisturbed(c, d, -1, -1, -1));
            assert(forall|i: int|
                0 <= i < 16 ==> (#[trigger] d.k.threads.slots@[i]).state
                    == c.k.threads.slots@[i].state);
            lemma_activate(d, cx, next);
        },
    }
}

/// The thread that called waits; another one may run.
#[verifier::spinoff_prover]
pub(crate) proof fn lemma_block(s: MachineView, cx: Entry, frame: TrapFrame)
    requires
        s.k.threads.runs(cx.cpu as int),
        s.k.threads.initialized,
        s.k.threads.slots@[s.current(cx) as int].state == ThreadState::Running,
    ensures
        ({
            let (t, f, next) = s.block(cx, frame);
            &&& others_undisturbed(s, t, s.current(cx) as int, -1, -1)
            &&& waits(t, s.current(cx) as int, frame)
            &&& f == frame
            &&& next is Ok
            &&& next->Ok_0 != Dispatch::Return
            &&& t.k.ipc == s.k.ipc
            &&& t.k.task == s.k.task
        }),
{
    let cpu = cx.cpu as int;
    let me = s.current(cx) as int;
    let a = s.charge_current(cx).leave(cx, frame, ThreadState::Blocked).charge_current(cx).disarm();
    assert(waits(a, me, frame));
    assert(others_undisturbed(s, a, me, -1, -1));
    let b = a.searched(cpu);
    lemma_next_is_ready(a, cpu);
    match a.next_thread(cpu) {
        None => {},
        Some(next) => {
            assert(next != me);
            lemma_activate(b, cx, next);
        },
    }
}


/// The endpoint in place `slot` and the reply rights may have changed; no other endpoint has, and
/// no notification.
pub open spec fn one_endpoint(s: MachineView, t: MachineView, slot: int) -> bool {
    &&& t.k.ipc.notifications == s.k.ipc.notifications
    &&& forall|i: int|
        0 <= i < 16 && i != slot ==> #[trigger] t.k.ipc.endpoints@[i] == s.k.ipc.endpoints@[i]
    &&& t.k.ipc.endpoints@[slot].owner == s.k.ipc.endpoints@[slot].owner
    &&& t.k.ipc.endpoints@[slot].generation == s.k.ipc.endpoints@[slot].generation
}

/// The notification in place `slot` may have changed; nothing else that messages go through has.
pub open spec fn one_notification(s: MachineView, t: MachineView, slot: int) -> bool {
    &&& t.k.ipc.endpoints == s.k.ipc.endpoints
    &&& t.k.ipc.replies == s.k.ipc.replies
    &&& forall|i: int|
        0 <= i < 32 && i != slot ==> #[trigger] t.k.ipc.notifications@[i]
            == s.k.ipc.notifications@[i]
    &&& t.k.ipc.notifications@[slot].owner == s.k.ipc.notifications@[slot].owner
    &&& t.k.ipc.notifications@[slot].generation == s.k.ipc.notifications@[slot].generation
}

#[verifier::spinoff_prover]
proof fn lemma_deliver(
    s: MachineView,
    cx: Entry,
    sender: PendingSender,
    receiver: int,
    endpoint: int,
)
    requires
        stillness::replies_sound(s.k.ipc.replies),
        cx.cpu < 4,
        sender.slot < 16,
        0 <= receiver < 16,
        0 <= endpoint < 16,
        sender.is_call ==> s.k.ipc.free_reply(0) is Some,
    ensures
        ({
            let (t, outcome) = s.deliver(cx, sender, receiver, endpoint);
            let from = sender.slot as int;
            &&& outcome is Ok
            &&& later(s, t)
            &&& received(s, t, receiver, sender)
            &&& t.k.ipc.endpoints == s.k.ipc.endpoints
            &&& t.k.ipc.notifications == s.k.ipc.notifications
            &&& t.k.task == s.k.task
            &&& t.k.threads.current == s.k.threads.current
            &&& t.k.threads.initialized == s.k.threads.initialized
            &&& let_go(s, t, receiver, 0)
            &&& if sender.is_call {
                others_undisturbed(s, t, receiver, -1, -1)
            } else {
                others_undisturbed(s, t, receiver, from, -1) && let_go(s, t, from, 0)
                    && t.k.ipc.replies == s.k.ipc.replies
            }
            &&& forall|i: int|
                0 <= i < 16 && (#[trigger] s.k.threads.slots@[i]).state != ThreadState::Blocked
                    ==> undisturbed(s.k.threads.slots@[i], t.k.threads.slots@[i])
                    && t.k.threads.slots@[i].state == s.k.threads.slots@[i].state
            &&& forall|i: int|
                0 <= i < 16 && (#[trigger] s.k.ipc.replies@[i]).owner != 0 ==> t.k.ipc.replies@[i]
                    == s.k.ipc.replies@[i]
            &&& sender.is_call && s.k.task.owner() != 0 ==> t.k.ipc.has_open_call(endpoint)
        }),
{
    let (t, outcome) = s.deliver(cx, sender, receiver, endpoint);
    delivery::lemma_deliver(s, cx, sender, receiver, endpoint);
    if sender.is_call {
        let slot = messages::lemma_free_reply(s, 0);
        messages::lemma_reply_leads_back(s, cx, sender.slot, receiver as u8, endpoint as u8);
        messages::lemma_free_reply_is_unused(s, 0);
        let held = s.with_ipc(
            s.k.ipc.with_reply(
                slot,
                ipc::Reply {
                    owner: s.k.task.owner(),
                    generation: s.k.ipc.replies@[slot].generation,
                    caller: sender.slot,
                    server: receiver as u8,
                    endpoint: endpoint as u8,
                },
            ),
        );
        assert forall|i: int| 0 <= i < 16 implies (#[trigger] held.k.ipc.replies@[i]).wf() by {
            assert(s.k.ipc.replies@[i].wf());
        }
        lemma_recompute(held, cx);
        stillness::lemma_recompute(held, cx);
        let a = held.recompute(cx);
        let (b, reply) = s.allocate_reply(cx, sender.slot, receiver as u8, endpoint as u8);
        assert(b == a);
        let w = a.write_message(receiver, delivery::with_reply(sender.message, reply->0));
        lemma_wake(w, cx, receiver, 0);
        assert(t == w.wake(cx, receiver, 0));
        assert(t.k.ipc.replies@[slot].endpoint == endpoint);
        assert forall|i: int|
            0 <= i < 16 && (#[trigger] s.k.threads.slots@[i]).state
                != ThreadState::Blocked implies undisturbed(
            s.k.threads.slots@[i],
            t.k.threads.slots@[i],
        ) && t.k.threads.slots@[i].state == s.k.threads.slots@[i].state by {
            assert(undisturbed(s.k.threads.slots@[i], a.k.threads.slots@[i]));
            assert(a.k.threads.slots@[i].state == s.k.threads.slots@[i].state);
        }
    } else {
        lemma_wake(s, cx, sender.slot as int, 0);
        let a = s.wake(cx, sender.slot as int, 0);
        let w = a.write_message(receiver, delivery::with_reply(sender.message, 0));
        lemma_wake(w, cx, receiver, 0);
    }
}


/// What the number in x0 names as an endpoint.
pub open spec fn endpoint_of(s: MachineView, frame: TrapFrame) -> Result<int, u64> {
    s.k.ipc.find_endpoint(s.k.task.owner(), frame.x@[0])
}

/// What the number in x0 names as a notification.
pub open spec fn notification_of(s: MachineView, frame: TrapFrame) -> Result<int, u64> {
    s.k.ipc.find_notification(s.k.task.owner(), frame.x@[0])
}

/// Where a thread waits to receive, a message goes to the first of those that wait. That thread
/// goes on with the message; the others wait on, in the same order. A sender goes on too. A caller
/// waits, and its call is open.
#[verifier::spinoff_prover]
pub proof fn law_send_reaches_first_receiver(s: MachineView, cx: Entry, frame: TrapFrame)
    requires
        asks(s, cx, frame, abi::SYS_ENDPOINT_SEND) || asks(s, cx, frame, abi::SYS_ENDPOINT_CALL),
        endpoint_of(s, frame) is Ok,
        s.k.ipc.endpoints@[endpoint_of(s, frame)->Ok_0].receivers.waiting().len() > 0,
        frame.x@[8] == abi::SYS_ENDPOINT_CALL ==> s.k.ipc.free_reply(0) is Some,
    ensures
        ({
            let slot = endpoint_of(s, frame)->Ok_0;
            let me = s.current(cx) as int;
            let is_call = frame.x@[8] == abi::SYS_ENDPOINT_CALL;
            let before = s.k.ipc.endpoints@[slot];
            let receiver = before.receivers.waiting().first() as int;
            let (t, result, next) = s.svc_frame(cx, frame);
            let after = t.k.ipc.endpoints@[slot];
            &&& received(
                s,
                t,
                receiver,
                PendingSender { slot: me as u8, is_call, message: cx.message },
            )
            &&& let_go(s, t, receiver, 0)
            &&& after.receivers.waiting() == before.receivers.waiting().drop_first()
            &&& after.sending() == before.sending()
            &&& one_endpoint(s, t, slot)
            &&& others_undisturbed(s, t, me, receiver, -1)
            &&& results_in(frame, result, 0)
            &&& if is_call {
                waits(t, me, result) && t.k.ipc.has_open_call(slot)
            } else {
                goes_on(t, cx, me, result, next) && t.k.ipc.replies == s.k.ipc.replies
            }
        }),
{
    let slot = endpoint_of(s, frame)->Ok_0;
    let me = s.current(cx) as int;
    let is_call = frame.x@[8] == abi::SYS_ENDPOINT_CALL;
    let endpoint = s.k.ipc.endpoints@[slot];
    assert(endpoint.wf());
    ipc::law_queue_is_fifo(endpoint.receivers, 0);
    let receiver = endpoint.receivers.slots@[0] as int;
    assert(receiver < 16);
    let sender = PendingSender { slot: s.current(cx), is_call, message: cx.message };
    let p = s.with_endpoint(
        slot,
        ipc::Endpoint { receivers: endpoint.receivers.popped(), ..endpoint },
    );
    delivery::lemma_free_reply_same(s.k.ipc, p.k.ipc, 0);
    lemma_deliver(p, cx, sender, receiver, slot);
    delivery::law_message_meets_receiver(s, cx, frame.x@[0], is_call, frame);
    let (d, _) = p.deliver(cx, sender, receiver, slot);
    assert(d.k.threads.slots@[me].state == ThreadState::Running);
    let (t, result, next) = s.svc_frame(cx, frame);
    if is_call {
        lemma_block(d, cx, frame.with_result(0));
    } else {
        lemma_preempt(d, cx, frame.with_result(0));
    }
    assert(p.k.threads == s.k.threads);
    assert(let_go(s, t, receiver, 0)) by {
        if s.k.threads.slots@[receiver].state == ThreadState::Blocked {
            assert(receiver != me);
            assert(undisturbed(d.k.threads.slots@[receiver], t.k.threads.slots@[receiver]));
        }
    }
    assert forall|i: int| 0 <= i < 16 && i != me && i != receiver implies undisturbed(
        s.k.threads.slots@[i],
        #[trigger] t.k.threads.slots@[i],
    ) by {
        assert(undisturbed(p.k.threads.slots@[i], d.k.threads.slots@[i]));
        assert(undisturbed(d.k.threads.slots@[i], t.k.threads.slots@[i]));
    }
}

/// Where nobody waits to receive, the message goes to the end of the line of those that wait to
/// send, and its sender waits. Nobody else notices.
#[verifier::spinoff_prover]
pub proof fn law_send_joins_line(s: MachineView, cx: Entry, frame: TrapFrame)
    requires
        asks(s, cx, frame, abi::SYS_ENDPOINT_SEND) || asks(s, cx, frame, abi::SYS_ENDPOINT_CALL),
        endpoint_of(s, frame) is Ok,
        s.k.ipc.endpoints@[endpoint_of(s, frame)->Ok_0].receivers.waiting().len() == 0,
    ensures
        ({
            let slot = endpoint_of(s, frame)->Ok_0;
            let me = s.current(cx) as int;
            let is_call = frame.x@[8] == abi::SYS_ENDPOINT_CALL;
            let before = s.k.ipc.endpoints@[slot];
            let (t, result, next) = s.svc_frame(cx, frame);
            let after = t.k.ipc.endpoints@[slot];
            if before.sending().len() < 16 {
                &&& after.sending() == before.sending().push(
                    PendingSender { slot: me as u8, is_call, message: cx.message },
                )
                &&& after.receivers.waiting().len() == 0
                &&& one_endpoint(s, t, slot)
                &&& t.k.ipc.replies == s.k.ipc.replies
                &&& others_undisturbed(s, t, me, -1, -1)
                &&& waits(t, me, frame)
                &&& next != Dispatch::Return
            } else {
                &&& t == s
                &&& results_in(frame, result, abi::SYS_ERR_NO_SLOT)
                &&& next == Dispatch::Return
            }
        }),
{
    let slot = endpoint_of(s, frame)->Ok_0;
    let is_call = frame.x@[8] == abi::SYS_ENDPOINT_CALL;
    let endpoint = s.k.ipc.endpoints@[slot];
    assert(endpoint.wf());
    let sender = PendingSender { slot: s.current(cx), is_call, message: cx.message };
    ipc::law_senders_are_fifo(endpoint, sender);
    if endpoint.sender_count < 16 {
        lemma_block(s.with_endpoint(slot, endpoint.with_sender(sender)), cx, frame);
    }
}

/// Where messages wait, a thread that receives gets the first and goes on; the others wait on, in
/// the same order. Who only sent goes on too. Who called waits on, for the answer, and the call is
/// open. A call that finds no free reply right is not received: it goes to the end of the line.
#[verifier::spinoff_prover]
pub proof fn law_recv_serves_first_sender(s: MachineView, cx: Entry, frame: TrapFrame)
    requires
        asks(s, cx, frame, abi::SYS_ENDPOINT_RECV),
        endpoint_of(s, frame) is Ok,
        s.k.ipc.endpoints@[endpoint_of(s, frame)->Ok_0].sending().len() > 0,
    ensures
        ({
            let slot = endpoint_of(s, frame)->Ok_0;
            let me = s.current(cx) as int;
            let before = s.k.ipc.endpoints@[slot];
            let sender = before.sending().first();
            let from = sender.slot as int;
            let (t, result, next) = s.svc_frame(cx, frame);
            let after = t.k.ipc.endpoints@[slot];
            &&& next == Dispatch::Return
            &&& one_endpoint(s, t, slot)
            &&& after.receivers == before.receivers
            &&& if sender.is_call && s.k.ipc.free_reply(0) is None {
                &&& after.sending() == before.sending().drop_first().push(sender)
                &&& t.k.ipc.replies == s.k.ipc.replies
                &&& t.k.threads == s.k.threads
                &&& results_in(frame, result, abi::SYS_ERR_NO_SLOT)
            } else {
                &&& received(s, t, me, sender)
                &&& after.sending() == before.sending().drop_first()
                &&& results_in(frame, result, 0)
                &&& t.k.threads.slots@[me].state == ThreadState::Running
                &&& t.k.threads.current == s.k.threads.current
                &&& if sender.is_call {
                    others_undisturbed(s, t, -1, -1, -1) && t.k.ipc.has_open_call(slot)
                } else {
                    &&& let_go(s, t, from, 0)
                    &&& others_undisturbed(s, t, from, -1, -1)
                    &&& t.k.ipc.replies == s.k.ipc.replies
                }
            }
        }),
{
    let slot = endpoint_of(s, frame)->Ok_0;
    let me = s.current(cx) as int;
    let endpoint = s.k.ipc.endpoints@[slot];
    assert(endpoint.wf());
    let sender = endpoint.senders@[0];
    ipc::law_senders_are_fifo(endpoint, sender);
    let popped = endpoint.without_first_sender();
    let p = s.with_endpoint(slot, popped);
    delivery::lemma_free_reply_same(s.k.ipc, p.k.ipc, 0);
    assert(sender.slot < 16);
    if sender.is_call && s.k.ipc.free_reply(0) is None {
        crate::util::lemma_shifted(endpoint.senders, endpoint.sender_count as int);
        assert(popped.with_sender(sender).sending() =~= popped.sending().push(sender));
    } else {
        lemma_deliver(p, cx, sender, me, slot);
        let (t, result, next) = s.svc_frame(cx, frame);
        assert(p.k.threads == s.k.threads);
        assert(s.k.threads.slots@[me].state != ThreadState::Blocked);
        assert(later(s, p));
        lemma_received_earlier(s, p, t, me, sender);
    }
}

/// Where no message waits, a thread that receives joins the end of the line of receivers and
/// waits. A thread that stands there already is refused.
#[verifier::spinoff_prover]
pub proof fn law_recv_joins_line(s: MachineView, cx: Entry, frame: TrapFrame)
    requires
        asks(s, cx, frame, abi::SYS_ENDPOINT_RECV),
        endpoint_of(s, frame) is Ok,
        s.k.ipc.endpoints@[endpoint_of(s, frame)->Ok_0].sending().len() == 0,
    ensures
        ({
            let slot = endpoint_of(s, frame)->Ok_0;
            let me = s.current(cx);
            let before = s.k.ipc.endpoints@[slot];
            let (t, result, next) = s.svc_frame(cx, frame);
            let after = t.k.ipc.endpoints@[slot];
            if before.receivers.waiting().len() < 16 && !before.receivers.waiting().contains(me) {
                &&& after.receivers.waiting() == before.receivers.waiting().push(me)
                &&& after.sending().len() == 0
                &&& one_endpoint(s, t, slot)
                &&& t.k.ipc.replies == s.k.ipc.replies
                &&& others_undisturbed(s, t, me as int, -1, -1)
                &&& waits(t, me as int, frame)
                &&& next != Dispatch::Return
            } else {
                &&& t == s
                &&& results_in(frame, result, abi::SYS_ERR_BUSY)
                &&& next == Dispatch::Return
            }
        }),
{
    let slot = endpoint_of(s, frame)->Ok_0;
    let me = s.current(cx);
    let endpoint = s.k.ipc.endpoints@[slot];
    assert(endpoint.wf());
    ipc::law_queue_is_fifo(endpoint.receivers, me);
    if endpoint.receivers.accepts(me) {
        lemma_block(
            s.with_endpoint(
                slot,
                ipc::Endpoint { receivers: endpoint.receivers.pushed(me), ..endpoint },
            ),
            cx,
            frame,
        );
    }
}


/// The reply right that `handle` names for the thread that calls.
pub open spec fn right_of(s: MachineView, cx: Entry, handle: u64) -> Result<int, u64> {
    s.k.ipc.find_reply(s.k.task.owner(), s.current(cx), handle)
}

/// The reply right in place `slot` is spent: its place is free, and its handle leads nowhere. The
/// other rights are as they were.
pub open spec fn spent(s: MachineView, t: MachineView, cx: Entry, handle: u64, slot: int) -> bool {
    &&& t.k.ipc.replies@[slot].owner == 0
    &&& t.k.ipc.replies@[slot].generation != s.k.ipc.replies@[slot].generation
    &&& right_of(t, cx, handle) is Err
    &&& forall|i: int|
        0 <= i < 16 && i != slot ==> #[trigger] t.k.ipc.replies@[i] == s.k.ipc.replies@[i]
}

proof fn lemma_some_reply_free(s: MachineView, slot: int, from: int)
    requires
        0 <= from <= slot < 16,
        s.k.ipc.replies@[slot].owner == 0,
    ensures
        s.k.ipc.free_reply(from) is Some,
    decreases slot - from,
{
    if s.k.ipc.replies@[from].owner != 0 {
        lemma_some_reply_free(s, slot, from + 1);
    }
}

#[verifier::spinoff_prover]
proof fn lemma_answer(s: MachineView, cx: Entry, handle: u64)
    requires
        runs(s, cx),
        right_of(s, cx, handle) is Ok,
    ensures
        ({
            let slot = right_of(s, cx, handle)->Ok_0;
            let caller = s.k.ipc.replies@[slot].caller as int;
            let (t, error) = s.answer(cx, handle);
            &&& error is None
            &&& 0 <= caller < 16
            &&& later(s, t)
            &&& got(s, t, caller, cx.message)
            &&& let_go(s, t, caller, 0)
            &&& others_undisturbed(s, t, caller, -1, -1)
            &&& forall|i: int|
                0 <= i < 16 && (#[trigger] s.k.threads.slots@[i]).state != ThreadState::Blocked
                    ==> undisturbed(s.k.threads.slots@[i], t.k.threads.slots@[i])
                    && t.k.threads.slots@[i].state == s.k.threads.slots@[i].state
            &&& spent(s, t, cx, handle, slot)
            &&& t.k.ipc.free_reply(0) is Some
            &&& t.k.ipc.endpoints == s.k.ipc.endpoints
            &&& t.k.ipc.notifications == s.k.ipc.notifications
            &&& t.k.threads.current == s.k.threads.current
            &&& t.k.threads.initialized == s.k.threads.initialized
            &&& t.k.task == s.k.task
            &&& stillness::replies_sound(t.k.ipc.replies)
        }),
{
    let slot = right_of(s, cx, handle)->Ok_0;
    let reply = s.k.ipc.replies@[slot];
    assert(reply.wf());
    crate::handle::law_generation_moves(reply.generation);
    let caller = reply.caller as int;
    delivery::law_answer_reaches_caller(s, cx, handle);
    let w = s.write_message(caller, cx.message);
    delivery::lemma_wake_later(w, cx, caller, 0);
    lemma_wake(w, cx, caller, 0);
    let v = w.wake(cx, caller, 0);
    let u = v.with_ipc(
        v.k.ipc.with_reply(
            slot,
            ipc::Reply::unused(crate::handle::generation_after(reply.generation)),
        ),
    );
    assert forall|i: int| 0 <= i < 16 implies (#[trigger] u.k.ipc.replies@[i]).wf() by {
        assert(s.k.ipc.replies@[i].wf());
    }
    lemma_recompute(u, cx);
    stillness::lemma_recompute(u, cx);
    delivery::lemma_recompute_later(u, cx);
    let t = u.recompute(cx);
    assert(later(s, w));
    delivery::lemma_later(s, w, v);
    assert(later(v, u));
    delivery::lemma_later(s, v, u);
    delivery::lemma_later(s, u, t);
    assert(t == s.answer(cx, handle).0);
    lemma_some_reply_free(t, slot, 0);
    assert forall|i: int|
        0 <= i < 16 && (#[trigger] s.k.threads.slots@[i]).state
            != ThreadState::Blocked implies undisturbed(
        s.k.threads.slots@[i],
        t.k.threads.slots@[i],
    ) && t.k.threads.slots@[i].state == s.k.threads.slots@[i].state by {
        assert(undisturbed(u.k.threads.slots@[i], t.k.threads.slots@[i]));
        assert(t.k.threads.slots@[i].state == u.k.threads.slots@[i].state);
        if i != caller {
            assert(undisturbed(w.k.threads.slots@[i], v.k.threads.slots@[i]));
        }
        assert(v.k.threads.slots@[i].state == w.k.threads.slots@[i].state);
    }
    assert forall|i: int| 0 <= i < 16 && i != caller implies undisturbed(
        s.k.threads.slots@[i],
        #[trigger] t.k.threads.slots@[i],
    ) by {
        assert(undisturbed(w.k.threads.slots@[i], v.k.threads.slots@[i]));
        assert(undisturbed(u.k.threads.slots@[i], t.k.threads.slots@[i]));
    }
    assert(let_go(s, t, caller, 0)) by {
        assert(undisturbed(u.k.threads.slots@[caller], t.k.threads.slots@[caller]));
    }
}

/// An answer is put into the IPC buffer of the thread that called, and that thread goes on. The
/// right to answer is spent, and who gave the answer goes on too.
#[verifier::spinoff_prover]
pub proof fn law_reply_lets_caller_go(s: MachineView, cx: Entry, frame: TrapFrame)
    requires
        asks(s, cx, frame, abi::SYS_ENDPOINT_REPLY),
        right_of(s, cx, frame.x@[0]) is Ok,
    ensures
        ({
            let slot = right_of(s, cx, frame.x@[0])->Ok_0;
            let me = s.current(cx) as int;
            let caller = s.k.ipc.replies@[slot].caller as int;
            let (t, result, next) = s.svc_frame(cx, frame);
            &&& got(s, t, caller, cx.message)
            &&& let_go(s, t, caller, 0)
            &&& results_in(frame, result, 0)
            &&& goes_on(t, cx, me, result, next)
            &&& others_undisturbed(s, t, me, caller, -1)
            &&& t.k.ipc.replies@[slot].owner == 0
            &&& t.k.ipc.replies@[slot].generation != s.k.ipc.replies@[slot].generation
            &&& forall|i: int|
                0 <= i < 16 && i != slot ==> #[trigger] t.k.ipc.replies@[i] == s.k.ipc.replies@[i]
            &&& t.k.ipc.endpoints == s.k.ipc.endpoints
            &&& t.k.ipc.notifications == s.k.ipc.notifications
        }),
{
    let slot = right_of(s, cx, frame.x@[0])->Ok_0;
    let me = s.current(cx) as int;
    let caller = s.k.ipc.replies@[slot].caller as int;
    lemma_answer(s, cx, frame.x@[0]);
    let d = s.answer(cx, frame.x@[0]).0;
    assert(d.k.threads.slots@[me].state == s.k.threads.slots@[me].state);
    lemma_preempt(d, cx, frame.with_result(0));
    delivery::lemma_preempt_later(d, cx, frame.with_result(0));
    let (t, result, next) = s.svc_frame(cx, frame);
    lemma_got_later(s, d, t, caller, cx.message);
    lemma_go_on(s, d, t, caller, me);
    assert forall|i: int| 0 <= i < 16 && i != me && i != caller implies undisturbed(
        s.k.threads.slots@[i],
        #[trigger] t.k.threads.slots@[i],
    ) by {
        assert(undisturbed(s.k.threads.slots@[i], d.k.threads.slots@[i]));
        assert(undisturbed(d.k.threads.slots@[i], t.k.threads.slots@[i]));
    }
}

proof fn lemma_got_later(
    s: MachineView,
    d: MachineView,
    t: MachineView,
    slot: int,
    message: crate::abi::IpcMessage,
)
    requires
        got(s, d, slot, message),
        later(d, t),
    ensures
        got(s, t, slot, message),
{
    let i = choose|i: int|
        s.ops.len() <= i < d.ops.len() && #[trigger] d.ops[i] == (crate::hw::HwOp::WriteMessage {
            va: s.k.threads.slots@[slot].ipc_va,
            message,
        });
    assert(t.ops[i] == d.ops[i]);
}

/// A thread that was let go stays so while another one's call ends.
proof fn lemma_go_on(s: MachineView, d: MachineView, t: MachineView, slot: int, me: int)
    requires
        0 <= slot < 16,
        s.k.threads.slots@[me].state == ThreadState::Running,
        let_go(s, d, slot, 0),
        others_undisturbed(d, t, me, -1, -1),
    ensures
        let_go(s, t, slot, 0),
{
    if slot != me {
        assert(undisturbed(d.k.threads.slots@[slot], t.k.threads.slots@[slot]));
    }
}

/// A message that was received stays so: later changes that keep the reply rights do not touch it.
proof fn lemma_received_later(
    s: MachineView,
    d: MachineView,
    t: MachineView,
    receiver: int,
    sender: PendingSender,
)
    requires
        0 <= receiver < 16,
        received(s, d, receiver, sender),
        later(d, t),
        t.k.ipc.replies == d.k.ipc.replies,
    ensures
        received(s, t, receiver, sender),
{
    let found = choose|handle: u64|
        #![trigger delivery::with_reply(sender.message, handle)]
        {
            &&& got(s, d, receiver, delivery::with_reply(sender.message, handle))
            &&& if sender.is_call {
                match d.k.ipc.find_reply(s.k.task.owner(), receiver as u8, handle) {
                    Ok(slot) => d.k.ipc.replies@[slot].caller == sender.slot,
                    Err(_) => false,
                }
            } else {
                handle == 0
            }
        };
    lemma_got_later(s, d, t, receiver, delivery::with_reply(sender.message, found));
}

/// What was received after a stretch in which every thread kept its IPC buffer was received over
/// the whole of it.
proof fn lemma_received_earlier(
    s: MachineView,
    p: MachineView,
    t: MachineView,
    receiver: int,
    sender: PendingSender,
)
    requires
        0 <= receiver < 16,
        later(s, p),
        p.k.task.owner() == s.k.task.owner(),
        received(p, t, receiver, sender),
    ensures
        received(s, t, receiver, sender),
{
    let found = choose|handle: u64|
        #![trigger delivery::with_reply(sender.message, handle)]
        {
            &&& got(p, t, receiver, delivery::with_reply(sender.message, handle))
            &&& if sender.is_call {
                match t.k.ipc.find_reply(p.k.task.owner(), receiver as u8, handle) {
                    Ok(slot) => t.k.ipc.replies@[slot].caller == sender.slot,
                    Err(_) => false,
                }
            } else {
                handle == 0
            }
        };
    assert(p.k.threads.slots@[receiver].ipc_va == s.k.threads.slots@[receiver].ipc_va);
    assert(got(s, t, receiver, delivery::with_reply(sender.message, found)));
}

/// A thread that answers and receives in one call, where a message waits, answers as a reply does
/// and gets the first message as a receive does: the caller goes on with the answer, the first
/// sender has left the line and its message is in the IPC buffer of the thread that called, which
/// goes on. There is always a free reply right for a call, for the one that was used is free.
#[verifier::spinoff_prover]
#[verifier::rlimit(40)]
pub proof fn law_reply_recv_serves_first_sender(s: MachineView, cx: Entry, frame: TrapFrame)
    requires
        asks(s, cx, frame, abi::SYS_ENDPOINT_REPLY_RECV),
        endpoint_of(s, frame) is Ok,
        right_of(s, cx, frame.x@[1]) is Ok,
        s.k.ipc.endpoints@[endpoint_of(s, frame)->Ok_0].sending().len() > 0,
    ensures
        ({
            let slot = endpoint_of(s, frame)->Ok_0;
            let right = right_of(s, cx, frame.x@[1])->Ok_0;
            let me = s.current(cx) as int;
            let caller = s.k.ipc.replies@[right].caller as int;
            let before = s.k.ipc.endpoints@[slot];
            let sender = before.sending().first();
            let from = sender.slot as int;
            let (t, result, next) = s.svc_frame(cx, frame);
            let after = t.k.ipc.endpoints@[slot];
            &&& got(s, t, caller, cx.message)
            &&& let_go(s, t, caller, 0)
            &&& received(s, t, me, sender)
            &&& after.sending() == before.sending().drop_first()
            &&& after.receivers == before.receivers
            &&& one_endpoint(s, t, slot)
            &&& results_in(frame, result, 0)
            &&& goes_on(t, cx, me, result, next)
            &&& if sender.is_call {
                &&& t.k.ipc.has_open_call(slot)
                &&& others_undisturbed(s, t, me, caller, -1)
            } else {
                &&& let_go(s, t, from, 0)
                &&& others_undisturbed(s, t, me, caller, from)
            }
        }),
{
    let slot = endpoint_of(s, frame)->Ok_0;
    let right = right_of(s, cx, frame.x@[1])->Ok_0;
    let me = s.current(cx) as int;
    let caller = s.k.ipc.replies@[right].caller as int;
    let endpoint = s.k.ipc.endpoints@[slot];
    assert(endpoint.wf());
    let sender = endpoint.senders@[0];
    assert(sender.slot < 16);
    let from = sender.slot as int;
    ipc::law_senders_are_fifo(endpoint, sender);
    lemma_answer(s, cx, frame.x@[1]);
    let a = s.answer(cx, frame.x@[1]).0;
    assert(a.k.threads.slots@[me].state == s.k.threads.slots@[me].state);
    let p = a.with_endpoint(slot, endpoint.without_first_sender());
    delivery::lemma_free_reply_same(a.k.ipc, p.k.ipc, 0);
    lemma_deliver(p, cx, sender, me, slot);
    let d = p.deliver(cx, sender, me, slot).0;
    assert(p.k.threads.slots@[me].state == ThreadState::Running);
    assert(d.k.threads.slots@[me].state == ThreadState::Running);
    lemma_preempt(d, cx, frame.with_result(0));
    delivery::lemma_preempt_later(d, cx, frame.with_result(0));
    let (t, result, next) = s.svc_frame(cx, frame);
    assert(t == d.preempt_if_needed(cx, frame.with_result(0)).0);
    assert(later(a, p));
    lemma_got_later(s, a, p, caller, cx.message);
    lemma_got_later(s, p, d, caller, cx.message);
    lemma_got_later(s, d, t, caller, cx.message);
    delivery::lemma_later(s, a, p);
    lemma_received_earlier(s, p, d, me, sender);
    lemma_received_later(s, d, t, me, sender);
    assert(let_go(s, d, caller, 0)) by {
        if s.k.threads.slots@[caller].state == ThreadState::Blocked {
            assert(p.k.threads.slots@[caller].state != ThreadState::Blocked);
            assert(undisturbed(p.k.threads.slots@[caller], d.k.threads.slots@[caller]));
        }
    }
    lemma_go_on(s, d, t, caller, me);
    if !sender.is_call {
        assert(let_go(s, d, from, 0)) by {
            if s.k.threads.slots@[from].state == ThreadState::Blocked {
                if from != caller {
                    assert(undisturbed(s.k.threads.slots@[from], a.k.threads.slots@[from]));
                    assert(p.k.threads.slots@[from].state == ThreadState::Blocked);
                }
            }
        }
        lemma_go_on(s, d, t, from, me);
    }
    assert forall|i: int|
        0 <= i < 16 && i != me && i != caller && (sender.is_call || i != from) implies undisturbed(
        s.k.threads.slots@[i],
        #[trigger] t.k.threads.slots@[i],
    ) by {
        assert(undisturbed(s.k.threads.slots@[i], a.k.threads.slots@[i]));
        assert(undisturbed(p.k.threads.slots@[i], d.k.threads.slots@[i]));
        assert(undisturbed(d.k.threads.slots@[i], t.k.threads.slots@[i]));
    }
}

/// A thread that answers and receives in one call, where no message waits, answers as a reply does
/// and then waits at the end of the line of receivers. If it stands in that line already, the
/// answer is given all the same and the receive is refused.
#[verifier::spinoff_prover]
pub proof fn law_reply_recv_joins_line(s: MachineView, cx: Entry, frame: TrapFrame)
    requires
        asks(s, cx, frame, abi::SYS_ENDPOINT_REPLY_RECV),
        endpoint_of(s, frame) is Ok,
        right_of(s, cx, frame.x@[1]) is Ok,
        s.k.ipc.endpoints@[endpoint_of(s, frame)->Ok_0].sending().len() == 0,
    ensures
        ({
            let slot = endpoint_of(s, frame)->Ok_0;
            let right = right_of(s, cx, frame.x@[1])->Ok_0;
            let me = s.current(cx);
            let caller = s.k.ipc.replies@[right].caller as int;
            let before = s.k.ipc.endpoints@[slot];
            let (t, result, next) = s.svc_frame(cx, frame);
            let after = t.k.ipc.endpoints@[slot];
            &&& got(s, t, caller, cx.message)
            &&& let_go(s, t, caller, 0)
            &&& others_undisturbed(s, t, me as int, caller, -1)
            &&& t.k.ipc.replies@[right].owner == 0
            &&& t.k.ipc.replies@[right].generation != s.k.ipc.replies@[right].generation
            &&& one_endpoint(s, t, slot)
            &&& after.sending().len() == 0
            &&& if before.receivers.waiting().len() < 16 && !before.receivers.waiting().contains(
                me,
            ) {
                &&& after.receivers.waiting() == before.receivers.waiting().push(me)
                &&& waits(t, me as int, frame)
                &&& next != Dispatch::Return
            } else {
                &&& after == before
                &&& results_in(frame, result, abi::SYS_ERR_BUSY)
                &&& next == Dispatch::Return
                &&& t.k.threads.slots@[me as int].state == ThreadState::Running
            }
        }),
{
    let slot = endpoint_of(s, frame)->Ok_0;
    let right = right_of(s, cx, frame.x@[1])->Ok_0;
    let me = s.current(cx);
    let caller = s.k.ipc.replies@[right].caller as int;
    let endpoint = s.k.ipc.endpoints@[slot];
    assert(endpoint.wf());
    ipc::law_queue_is_fifo(endpoint.receivers, me);
    lemma_answer(s, cx, frame.x@[1]);
    let a = s.answer(cx, frame.x@[1]).0;
    assert(a.k.threads.slots@[me as int].state == s.k.threads.slots@[me as int].state);
    let (t, result, next) = s.svc_frame(cx, frame);
    if endpoint.receivers.accepts(me) {
        let p = a.with_endpoint(
            slot,
            ipc::Endpoint { receivers: endpoint.receivers.pushed(me), ..endpoint },
        );
        lemma_block(p, cx, frame);
        delivery::lemma_block_later(p, cx, frame);
        assert(later(a, p));
        lemma_got_later(s, a, p, caller, cx.message);
        lemma_got_later(s, p, t, caller, cx.message);
        assert(let_go(s, p, caller, 0));
        lemma_go_on(s, p, t, caller, me as int);
        assert forall|i: int| 0 <= i < 16 && i != me && i != caller implies undisturbed(
            s.k.threads.slots@[i],
            #[trigger] t.k.threads.slots@[i],
        ) by {
            assert(undisturbed(s.k.threads.slots@[i], a.k.threads.slots@[i]));
            assert(undisturbed(p.k.threads.slots@[i], t.k.threads.slots@[i]));
        }
    }
}


/// Badges that nobody waits for are kept with those that are pending. The first thread that waits
/// gets the new badges and all that are pending, and goes on; the others wait on, in the same
/// order. Whoever signals goes on. No badge at all is an error, and changes nothing.
#[verifier::spinoff_prover]
pub proof fn law_signal_adds_badges(s: MachineView, cx: Entry, frame: TrapFrame)
    requires
        asks(s, cx, frame, abi::SYS_NOTIFICATION_SIGNAL),
        notification_of(s, frame) is Ok,
    ensures
        ({
            let slot = notification_of(s, frame)->Ok_0;
            let me = s.current(cx) as int;
            let badge = frame.x@[1];
            let before = s.k.ipc.notifications@[slot];
            let (t, result, next) = s.svc_frame(cx, frame);
            let after = t.k.ipc.notifications@[slot];
            if badge == 0 {
                &&& t == s
                &&& results_in(frame, result, abi::SYS_ERR_INVALID)
                &&& next == Dispatch::Return
            } else {
                &&& results_in(frame, result, 0)
                &&& goes_on(t, cx, me, result, next)
                &&& one_notification(s, t, slot)
                &&& if before.waiters.waiting().len() == 0 {
                    &&& after.pending == before.pending | badge
                    &&& after.waiters == before.waiters
                    &&& others_undisturbed(s, t, me, -1, -1)
                } else {
                    let first = before.waiters.waiting().first() as int;
                    &&& after.pending == 0
                    &&& after.waiters.waiting() == before.waiters.waiting().drop_first()
                    &&& let_go(s, t, first, before.pending | badge)
                    &&& others_undisturbed(s, t, me, first, -1)
                }
            }
        }),
{
    if frame.x@[1] != 0 {
        lemma_signalled(s, cx, frame.x@[0], frame.x@[1], frame.with_result(0));
    }
}

/// Badges that are signalled, and what the thread that did so, or was interrupted, does next.
#[verifier::spinoff_prover]
pub(crate) proof fn lemma_signalled(
    s: MachineView,
    cx: Entry,
    handle: u64,
    badge: u64,
    frame: TrapFrame,
)
    requires
        runs(s, cx),
        badge != 0,
        s.k.ipc.find_notification(s.k.task.owner(), handle) is Ok,
    ensures
        ({
            let slot = s.k.ipc.find_notification(s.k.task.owner(), handle)->Ok_0;
            let me = s.current(cx) as int;
            let before = s.k.ipc.notifications@[slot];
            let (d, code) = s.signal(cx, handle, badge);
            let (t, next) = d.preempt_if_needed(cx, frame);
            let after = t.k.ipc.notifications@[slot];
            &&& code == 0
            &&& d.k.threads.runs(cx.cpu as int)
            &&& t.k.task == s.k.task
            &&& goes_on(t, cx, me, frame, next)
            &&& one_notification(s, t, slot)
            &&& if before.waiters.waiting().len() == 0 {
                &&& after.pending == before.pending | badge
                &&& after.waiters == before.waiters
                &&& others_undisturbed(s, t, me, -1, -1)
            } else {
                let first = before.waiters.waiting().first() as int;
                &&& after.pending == 0
                &&& after.waiters.waiting() == before.waiters.waiting().drop_first()
                &&& let_go(s, t, first, before.pending | badge)
                &&& others_undisturbed(s, t, me, first, -1)
            }
        }),
{
    let slot = s.k.ipc.find_notification(s.k.task.owner(), handle)->Ok_0;
    let me = s.current(cx) as int;
    let notification = s.k.ipc.notifications@[slot];
    assert(notification.wf());
    ipc::law_queue_is_fifo(notification.waiters, 0);
    let d = s.signal(cx, handle, badge).0;
    let (t, next) = d.preempt_if_needed(cx, frame);
    if notification.waiters.count > 0 {
        let first = notification.waiters.slots@[0] as int;
        assert(first < 16);
        let p = s.with_notification(
            slot,
            ipc::Notification {
                pending: 0,
                waiters: notification.waiters.popped(),
                ..notification
            },
        );
        lemma_wake(p, cx, first, notification.pending | badge);
        assert(d.k.threads.slots@[me].state == ThreadState::Running) by {
            if me != first {
                assert(s.k.threads.slots@[me].state == ThreadState::Running);
                lemma_wake_keeps_states(p, cx, first, notification.pending | badge, me);
            }
        }
        lemma_preempt(d, cx, frame);
        assert forall|i: int| 0 <= i < 16 && i != me && i != first implies undisturbed(
            s.k.threads.slots@[i],
            #[trigger] t.k.threads.slots@[i],
        ) by {
            assert(undisturbed(p.k.threads.slots@[i], d.k.threads.slots@[i]));
            assert(undisturbed(d.k.threads.slots@[i], t.k.threads.slots@[i]));
        }
        if first != me {
            assert(undisturbed(d.k.threads.slots@[first], t.k.threads.slots@[first]));
        }
    } else {
        lemma_preempt(d, cx, frame);
    }
}

pub(crate) proof fn lemma_wake_keeps_states(s: MachineView, cx: Entry, slot: int, value: u64, other: int)
    requires
        0 <= slot < 16,
        0 <= other < 16,
        other != slot,
    ensures
        s.wake(cx, slot, value).k.threads.slots@[other].state == s.k.threads.slots@[other].state,
{
}

/// A thread that waits where badges are pending goes on at once with exactly those, and none is
/// left. Where none is, it waits at the end of the line, and the call returns when a badge comes.
/// A thread that stands in the line already is refused.
#[verifier::spinoff_prover]
pub proof fn law_wait_takes_pending_badges(s: MachineView, cx: Entry, frame: TrapFrame)
    requires
        asks(s, cx, frame, abi::SYS_NOTIFICATION_WAIT),
        notification_of(s, frame) is Ok,
    ensures
        ({
            let slot = notification_of(s, frame)->Ok_0;
            let me = s.current(cx);
            let before = s.k.ipc.notifications@[slot];
            let (t, result, next) = s.svc_frame(cx, frame);
            let after = t.k.ipc.notifications@[slot];
            if before.pending != 0 {
                &&& results_in(frame, result, before.pending)
                &&& next == Dispatch::Return
                &&& after.pending == 0
                &&& after.waiters == before.waiters
                &&& t.k.threads == s.k.threads
                &&& one_notification(s, t, slot)
            } else if before.waiters.waiting().len() < 16 && !before.waiters.waiting().contains(
                me,
            ) {
                &&& after.pending == 0
                &&& after.waiters.waiting() == before.waiters.waiting().push(me)
                &&& waits(t, me as int, frame)
                &&& next != Dispatch::Return
                &&& others_undisturbed(s, t, me as int, -1, -1)
                &&& one_notification(s, t, slot)
            } else {
                &&& t == s
                &&& results_in(frame, result, abi::SYS_ERR_BUSY)
                &&& next == Dispatch::Return
            }
        }),
{
    let slot = notification_of(s, frame)->Ok_0;
    let me = s.current(cx);
    let notification = s.k.ipc.notifications@[slot];
    assert(notification.wf());
    ipc::law_queue_is_fifo(notification.waiters, me);
    if notification.pending == 0 && notification.waiters.accepts(me) {
        lemma_block(
            s.with_notification(
                slot,
                ipc::Notification { waiters: notification.waiters.pushed(me), ..notification },
            ),
            cx,
            frame,
        );
    }
}

/// A thread that asks for badges gets exactly those that are pending, and none is left; it never
/// waits.
pub proof fn law_poll_takes_pending_badges(s: MachineView, cx: Entry, frame: TrapFrame)
    requires
        asks(s, cx, frame, abi::SYS_NOTIFICATION_POLL),
        notification_of(s, frame) is Ok,
    ensures
        ({
            let slot = notification_of(s, frame)->Ok_0;
            let before = s.k.ipc.notifications@[slot];
            let (t, result, next) = s.svc_frame(cx, frame);
            &&& next == Dispatch::Return
            &&& t.k.threads == s.k.threads
            &&& t.k.ipc.notifications@[slot].pending == 0
            &&& t.k.ipc.notifications@[slot].waiters == before.waiters
            &&& one_notification(s, t, slot)
            &&& results_in(
                frame,
                result,
                if before.pending != 0 {
                    before.pending
                } else {
                    abi::SYS_ERR_WOULD_BLOCK
                },
            )
        }),
{
}

/// Badges that were signalled twice while nobody waited are all there for the next thread that
/// waits: it goes on at once with the pending ones and both new ones, and after it a poll finds
/// none.
pub proof fn law_waiting_finds_all_signals(
    s: MachineView,
    cx: Entry,
    a: u64,
    b: u64,
    cx2: Entry,
    frame: TrapFrame,
)
    requires
        runs(s, cx2),
        frame.x@[8] == abi::SYS_NOTIFICATION_WAIT,
        a != 0,
        b != 0,
        notification_of(s, frame) is Ok,
        s.k.ipc.notifications@[notification_of(s, frame)->Ok_0].waiters.waiting().len() == 0,
    ensures
        ({
            let pending = s.k.ipc.notifications@[notification_of(s, frame)->Ok_0].pending;
            let (t, first) = s.signal(cx, frame.x@[0], a);
            let (u, second) = t.signal(cx, frame.x@[0], b);
            let (v, result, next) = u.svc_frame(cx2, frame);
            &&& first == 0
            &&& second == 0
            &&& next == Dispatch::Return
            &&& results_in(frame, result, pending | a | b)
            &&& v.notification_poll(frame.x@[0]).1 == abi::SYS_ERR_WOULD_BLOCK
        }),
{
    let slot = notification_of(s, frame)->Ok_0;
    let pending = s.k.ipc.notifications@[slot].pending;
    assert(s.k.ipc.notifications@[slot].wf());
    crate::laws::messages::law_badges_add_up(s, cx, frame.x@[0], a, b);
    let (t, first) = s.signal(cx, frame.x@[0], a);
    let (u, second) = t.signal(cx, frame.x@[0], b);
    assert(u.k.ipc.notifications@[slot].pending == (pending | a) | b);
    assert((pending | a) | b != 0) by {
        assert(u.notification_poll(frame.x@[0]).1 == (pending | a) | b);
        if (pending | a) | b == 0 {
            assert(u.notification_poll(frame.x@[0]).1 == abi::SYS_ERR_WOULD_BLOCK);
        }
    }
}

/// A call on an endpoint or a notification whose handle names none that the task owns ends at once
/// with an error and changes nothing.
pub proof fn law_bad_handles_change_nothing(s: MachineView, cx: Entry, frame: TrapFrame)
    requires
        runs(s, cx),
        ({
            let sysno = frame.x@[8];
            ||| endpoint_of(s, frame) is Err && (sysno == abi::SYS_ENDPOINT_SEND || sysno
                == abi::SYS_ENDPOINT_CALL || sysno == abi::SYS_ENDPOINT_RECV || sysno
                == abi::SYS_ENDPOINT_REPLY_RECV || sysno == abi::SYS_ENDPOINT_DESTROY)
            ||| right_of(s, cx, frame.x@[0]) is Err && sysno == abi::SYS_ENDPOINT_REPLY
            ||| right_of(s, cx, frame.x@[1]) is Err && sysno == abi::SYS_ENDPOINT_REPLY_RECV
            ||| notification_of(s, frame) is Err && (sysno == abi::SYS_NOTIFICATION_SIGNAL || sysno
                == abi::SYS_NOTIFICATION_WAIT || sysno == abi::SYS_NOTIFICATION_POLL || sysno
                == abi::SYS_NOTIFICATION_DESTROY)
        }),
    ensures
        ({
            let (t, result, next) = s.svc_frame(cx, frame);
            &&& t == s
            &&& next == Dispatch::Return
            &&& results_in(frame, result, abi::SYS_ERR_INVALID) || results_in(
                frame,
                result,
                abi::SYS_ERR_NOT_FOUND,
            )
        }),
{
}

/// An endpoint can be destroyed exactly while nobody waits on either side of it and no call
/// through it is open. Then its place is free and its handle leads nowhere; nothing else changes.
pub proof fn law_idle_endpoint_is_destroyed(s: MachineView, cx: Entry, frame: TrapFrame)
    requires
        asks(s, cx, frame, abi::SYS_ENDPOINT_DESTROY),
        endpoint_of(s, frame) is Ok,
    ensures
        ({
            let slot = endpoint_of(s, frame)->Ok_0;
            let before = s.k.ipc.endpoints@[slot];
            let (t, result, next) = s.svc_frame(cx, frame);
            let after = t.k.ipc.endpoints@[slot];
            &&& next == Dispatch::Return
            &&& t.k.threads == s.k.threads
            &&& if before.sending().len() == 0 && before.receivers.waiting().len() == 0
                && (forall|i: int|
                0 <= i < 16 && (#[trigger] s.k.ipc.replies@[i]).owner != 0
                    ==> s.k.ipc.replies@[i].endpoint != slot) {
                &&& results_in(frame, result, 0)
                &&& after.owner == 0
                &&& endpoint_of(t, frame) is Err
                &&& t.k.ipc.replies == s.k.ipc.replies
                &&& t.k.ipc.notifications == s.k.ipc.notifications
                &&& forall|i: int|
                    0 <= i < 16 && i != slot ==> #[trigger] t.k.ipc.endpoints@[i]
                        == s.k.ipc.endpoints@[i]
            } else {
                t == s && results_in(frame, result, abi::SYS_ERR_BUSY)
            }
        }),
{
    let slot = endpoint_of(s, frame)->Ok_0;
    let before = s.k.ipc.endpoints@[slot];
    assert(before.wf());
    crate::handle::law_generation_moves(before.generation);
    let calm = forall|i: int|
        0 <= i < 16 && (#[trigger] s.k.ipc.replies@[i]).owner != 0 ==> s.k.ipc.replies@[i].endpoint
            != slot;
    assert(calm == !s.k.ipc.has_open_call(slot));
}

/// A notification can be destroyed exactly while nobody waits for it and no interrupt is bound to
/// it. Then its place is free and its handle leads nowhere; nothing else changes.
pub proof fn law_unused_notification_is_destroyed(s: MachineView, cx: Entry, frame: TrapFrame)
    requires
        asks(s, cx, frame, abi::SYS_NOTIFICATION_DESTROY),
        notification_of(s, frame) is Ok,
    ensures
        ({
            let slot = notification_of(s, frame)->Ok_0;
            let before = s.k.ipc.notifications@[slot];
            let (t, result, next) = s.svc_frame(cx, frame);
            let after = t.k.ipc.notifications@[slot];
            &&& next == Dispatch::Return
            &&& t.k.threads == s.k.threads
            &&& if before.waiters.waiting().len() == 0 && (forall|i: int|
                0 <= i < s.k.task.irq_binding_count ==> (
                #[trigger] s.k.task.irq_bindings@[i]).notification != frame.x@[0]) {
                &&& results_in(frame, result, 0)
                &&& after.owner == 0
                &&& after.pending == 0
                &&& notification_of(t, frame) is Err
                &&& t.k.ipc.replies == s.k.ipc.replies
                &&& t.k.ipc.endpoints == s.k.ipc.endpoints
                &&& forall|i: int|
                    0 <= i < 32 && i != slot ==> #[trigger] t.k.ipc.notifications@[i]
                        == s.k.ipc.notifications@[i]
            } else {
                t == s && results_in(frame, result, abi::SYS_ERR_BUSY)
            }
        }),
{
    let slot = notification_of(s, frame)->Ok_0;
    let before = s.k.ipc.notifications@[slot];
    assert(before.wf());
    crate::handle::law_generation_moves(before.generation);
}

/// A new endpoint takes a place that was free, belongs to the task and is idle; its handle finds
/// it. Nothing else changes. There is none only if every place is taken.
pub proof fn law_new_endpoint_is_idle(s: MachineView, cx: Entry, frame: TrapFrame)
    requires
        asks(s, cx, frame, abi::SYS_ENDPOINT_CREATE),
    ensures
        ({
            let (t, result, next) = s.svc_frame(cx, frame);
            let found = t.k.ipc.find_endpoint(s.k.task.owner(), result.x@[0]);
            &&& next == Dispatch::Return
            &&& results_in(frame, result, result.x@[0])
            &&& t.k.threads == s.k.threads
            &&& if forall|i: int| 0 <= i < 16 ==> (#[trigger] s.k.ipc.endpoints@[i]).owner != 0 {
                t == s && result.x@[0] == abi::SYS_ERR_NO_SLOT
            } else {
                &&& found is Ok
                &&& s.k.ipc.endpoints@[found->Ok_0].owner == 0
                &&& t.k.ipc.endpoints@[found->Ok_0].sending().len() == 0
                &&& t.k.ipc.endpoints@[found->Ok_0].receivers.waiting().len() == 0
                &&& t.k.ipc.replies == s.k.ipc.replies
                &&& t.k.ipc.notifications == s.k.ipc.notifications
                &&& forall|i: int|
                    0 <= i < 16 && i != found->Ok_0 ==> #[trigger] t.k.ipc.endpoints@[i]
                        == s.k.ipc.endpoints@[i]
            }
        }),
{
    lemma_free_endpoint(s, 0);
    if let Some(slot) = s.k.ipc.free_endpoint(0) {
        assert(s.k.ipc.endpoints@[slot].wf());
        crate::handle::law_handle_round_trip(slot, s.k.ipc.endpoints@[slot].generation, 16);
    }
}

proof fn lemma_free_endpoint(s: MachineView, from: int)
    requires
        0 <= from,
    ensures
        match s.k.ipc.free_endpoint(from) {
            Some(slot) => from <= slot < 16 && s.k.ipc.endpoints@[slot].owner == 0,
            None => forall|i: int|
                from <= i < 16 ==> (#[trigger] s.k.ipc.endpoints@[i]).owner != 0,
        },
    decreases 16 - from,
{
    if from < 16 {
        lemma_free_endpoint(s, from + 1);
    }
}

/// A new notification takes a place that was free and belongs to the task; nobody waits for it and
/// no badge is pending. Its handle finds it. Nothing else changes. There is none only if every
/// place is taken.
pub proof fn law_new_notification_is_empty(s: MachineView, cx: Entry, frame: TrapFrame)
    requires
        asks(s, cx, frame, abi::SYS_NOTIFICATION_CREATE),
    ensures
        ({
            let (t, result, next) = s.svc_frame(cx, frame);
            let found = t.k.ipc.find_notification(s.k.task.owner(), result.x@[0]);
            &&& next == Dispatch::Return
            &&& results_in(frame, result, result.x@[0])
            &&& t.k.threads == s.k.threads
            &&& if forall|i: int| 0 <= i < 32 ==> (#[trigger] s.k.ipc.notifications@[i]).owner != 0 {
                t == s && result.x@[0] == abi::SYS_ERR_NO_SLOT
            } else {
                &&& found is Ok
                &&& s.k.ipc.notifications@[found->Ok_0].owner == 0
                &&& t.k.ipc.notifications@[found->Ok_0].pending == 0
                &&& t.k.ipc.notifications@[found->Ok_0].waiters.waiting().len() == 0
                &&& t.k.ipc.replies == s.k.ipc.replies
                &&& t.k.ipc.endpoints == s.k.ipc.endpoints
                &&& forall|i: int|
                    0 <= i < 32 && i != found->Ok_0 ==> #[trigger] t.k.ipc.notifications@[i]
                        == s.k.ipc.notifications@[i]
            }
        }),
{
    lemma_free_notification(s, 0);
    if let Some(slot) = s.k.ipc.free_notification(0) {
        assert(s.k.ipc.notifications@[slot].wf());
        crate::handle::law_handle_round_trip(slot, s.k.ipc.notifications@[slot].generation, 32);
    }
}

proof fn lemma_free_notification(s: MachineView, from: int)
    requires
        0 <= from,
    ensures
        match s.k.ipc.free_notification(from) {
            Some(slot) => from <= slot < 32 && s.k.ipc.notifications@[slot].owner == 0,
            None => forall|i: int|
                from <= i < 32 ==> (#[trigger] s.k.ipc.notifications@[i]).owner != 0,
        },
    decreases 32 - from,
{
    if from < 32 {
        lemma_free_notification(s, from + 1);
    }
}


/// A call that finds no free reply right is refused, and who made it goes on. The receiver that it
/// would have reached goes to the end of the line and waits on; nobody else notices.
pub proof fn law_call_without_right_is_refused(s: MachineView, cx: Entry, frame: TrapFrame)
    requires
        asks(s, cx, frame, abi::SYS_ENDPOINT_CALL),
        endpoint_of(s, frame) is Ok,
        s.k.ipc.endpoints@[endpoint_of(s, frame)->Ok_0].receivers.waiting().len() > 0,
        s.k.ipc.free_reply(0) is None,
    ensures
        ({
            let slot = endpoint_of(s, frame)->Ok_0;
            let before = s.k.ipc.endpoints@[slot];
            let (t, result, next) = s.svc_frame(cx, frame);
            let after = t.k.ipc.endpoints@[slot];
            &&& next == Dispatch::Return
            &&& results_in(frame, result, abi::SYS_ERR_NO_SLOT)
            &&& t.k.threads == s.k.threads
            &&& t.k.ipc.replies == s.k.ipc.replies
            &&& t.ops == s.ops
            &&& one_endpoint(s, t, slot)
            &&& after.sending() == before.sending()
            &&& after.receivers.waiting() == before.receivers.waiting().drop_first().push(
                before.receivers.waiting().first(),
            )
        }),
{
    let slot = endpoint_of(s, frame)->Ok_0;
    let endpoint = s.k.ipc.endpoints@[slot];
    assert(endpoint.wf());
    let first = endpoint.receivers.slots@[0];
    let popped = endpoint.receivers.popped();
    ipc::law_queue_is_fifo(endpoint.receivers, first);
    crate::util::lemma_shifted(endpoint.receivers.slots, endpoint.receivers.count as int);
    let p = s.with_endpoint(slot, ipc::Endpoint { receivers: popped, ..endpoint });
    delivery::lemma_free_reply_same(s.k.ipc, p.k.ipc, 0);
    assert(popped.wf()) by {
        assert forall|i: int, j: int| 0 <= i < j < popped.count implies #[trigger] popped.slots@[i]
            != #[trigger] popped.slots@[j] by {
            assert(popped.slots@[i] == endpoint.receivers.slots@[i + 1]);
            assert(popped.slots@[j] == endpoint.receivers.slots@[j + 1]);
        }
        assert forall|i: int| 0 <= i < popped.count implies (#[trigger] popped.slots@[i]) < 16 by {
            assert(popped.slots@[i] == endpoint.receivers.slots@[i + 1]);
        }
    }
    assert(!popped.waiting().contains(first)) by {
        if popped.waiting().contains(first) {
            let i = choose|i: int| 0 <= i < popped.waiting().len() && popped.waiting()[i] == first;
            assert(popped.slots@[i] == endpoint.receivers.slots@[i + 1]);
            assert(endpoint.receivers.slots@[0] != endpoint.receivers.slots@[i + 1]);
        }
    }
    ipc::law_queue_is_fifo(popped, first);
}

} // verus!
