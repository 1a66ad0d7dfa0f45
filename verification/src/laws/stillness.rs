//! What communication and scheduling leave alone: memory, tables, frames and their mappings, the
//! task, and the memory of threads.
use crate::abi;
use crate::machine::{Entry, MachineView};
use crate::object::ipc::{self, Endpoint, Notification, PendingSender, Reply};
use crate::object::thread::{self, Thread, ThreadState, ThreadTable};
use crate::syscall::dispatch::TrapFrame;
use vstd::prelude::*;

verus! {

/// Two threads have the same memory.
pub open spec fn same_memory(a: Thread, b: Thread) -> bool {
    a.stack_pa == b.stack_pa && a.stack_pages == b.stack_pages && a.ipc_pa == b.ipc_pa
}

/// Every thread has the same memory in both tables.
pub open spec fn same_memories(a: ThreadTable, b: ThreadTable) -> bool {
    forall|i: int| 0 <= i < 16 ==> same_memory(a.slots@[i], #[trigger] b.slots@[i])
}

/// The same thread, but perhaps of another priority, with another place in its queue, or charged.
pub open spec fn reranked_thread(a: Thread, b: Thread) -> bool {
    b == (Thread {
        effective_priority: b.effective_priority,
        ready_sequence: b.ready_sequence,
        runtime_ticks: b.runtime_ticks,
        ..a
    })
}

/// The same threads, in this sense, on the same processors.
pub open spec fn reranked(a: ThreadTable, b: ThreadTable) -> bool {
    &&& b.current == a.current
    &&& b.initialized == a.initialized
    &&& forall|i: int| 0 <= i < 16 ==> reranked_thread(a.slots@[i], #[trigger] b.slots@[i])
}

proof fn lemma_reranked(a: ThreadTable, b: ThreadTable, c: ThreadTable)
    requires
        reranked(a, b),
        reranked(b, c),
    ensures
        reranked(a, c),
{
    assert forall|i: int| 0 <= i < 16 implies reranked_thread(
        a.slots@[i],
        #[trigger] c.slots@[i],
    ) by {
        assert(reranked_thread(a.slots@[i], b.slots@[i]));
    }
}

/// On the way from `s` to `t` no memory changed hands.
pub open spec fn still(s: MachineView, t: MachineView) -> bool {
    &&& t.k.mem == s.k.mem
    &&& t.k.frames == s.k.frames
    &&& t.k.task == s.k.task
    &&& t.tables == s.tables
    &&& t.k.spaces.mappings == s.k.spaces.mappings
    &&& same_memories(s.k.threads, t.k.threads)
}

/// The reply rights are sound.
pub open spec fn replies_sound(replies: [Reply; 16]) -> bool {
    forall|i: int| 0 <= i < 16 ==> (#[trigger] replies@[i]).wf()
}

pub(crate) proof fn lemma_still(s: MachineView, t: MachineView, u: MachineView)
    requires
        still(s, t),
        still(t, u),
    ensures
        still(s, u),
{
    assert forall|i: int| 0 <= i < 16 implies same_memory(
        s.k.threads.slots@[i],
        #[trigger] u.k.threads.slots@[i],
    ) by {
        assert(same_memory(s.k.threads.slots@[i], t.k.threads.slots@[i]));
    }
}

pub(crate) proof fn lemma_charge(s: MachineView, cx: Entry)
    ensures
        reranked(s.k.threads, s.charge_current(cx).k.threads),
        still(s, s.charge_current(cx)),
        s.charge_current(cx).k.threads.current == s.k.threads.current,
        s.charge_current(cx).k.ipc == s.k.ipc,
{
}

pub(crate) proof fn lemma_ready(s: MachineView, cx: Entry, slot: int)
    requires
        0 <= slot < 16,
    ensures
        reranked(s.k.threads, s.thread_ready(cx, slot).k.threads),
        still(s, s.thread_ready(cx, slot)),
        s.thread_ready(cx, slot).k.threads.current == s.k.threads.current,
        s.thread_ready(cx, slot).k.ipc == s.k.ipc,
{
    let t = s.enqueued(slot);
    assert(still(s, t));
    assert(reranked(s.k.threads, t.k.threads));
    lemma_charge(t, cx);
    lemma_still(s, t, t.charge_current(cx));
    lemma_reranked(s.k.threads, t.k.threads, t.charge_current(cx).k.threads);
}

pub(crate) proof fn lemma_wake(s: MachineView, cx: Entry, slot: int, value: u64)
    ensures
        still(s, s.wake(cx, slot, value)),
        s.wake(cx, slot, value).k.threads.current == s.k.threads.current,
        s.wake(cx, slot, value).k.ipc == s.k.ipc,
{
    let thread = s.k.threads.slots@[slot];
    if 0 <= slot < 16 && thread.state == ThreadState::Blocked {
        let t = s.with_threads(
            s.k.threads.with(
                slot,
                Thread {
                    context: thread.context.with_result(value),
                    state: ThreadState::Ready,
                    running_cpu: thread::NONE,
                    ..thread
                },
            ),
        );
        assert(still(s, t));
        lemma_ready(t, cx, slot);
        lemma_still(s, t, t.thread_ready(cx, slot));
    }
}

proof fn lemma_pass(threads: ThreadTable, replies: [Reply; 16], k: int)
    requires
        replies_sound(replies),
        0 <= k <= 16,
    ensures
        reranked(threads, ipc::inherit_pass(threads, replies, k)),
    decreases k,
{
    if k > 0 {
        lemma_pass(threads, replies, k - 1);
        assert(replies@[k - 1].wf());
        let t = ipc::inherit_pass(threads, replies, k - 1);
        let u = ipc::inherit_pass(threads, replies, k);
        assert(reranked(t, u));
        lemma_reranked(threads, t, u);
    }
}

proof fn lemma_passes(threads: ThreadTable, replies: [Reply; 16], pass: int)
    requires
        replies_sound(replies),
        0 <= pass,
    ensures
        reranked(threads, ipc::inherit_all(threads, replies, pass)),
    decreases 16 - pass,
{
    if pass < 16 {
        let next = ipc::inherit_pass(threads, replies, 16);
        lemma_pass(threads, replies, 16);
        if next != threads {
            lemma_passes(next, replies, pass + 1);
            lemma_reranked(threads, next, ipc::inherit_all(threads, replies, pass));
        }
    }
}

proof fn lemma_announce(s: MachineView, cx: Entry, before: ThreadTable, k: int)
    requires
        0 <= k <= 16,
    ensures
        reranked(s.k.threads, s.announce_priorities(cx, before, k).k.threads),
        still(s, s.announce_priorities(cx, before, k)),
        s.announce_priorities(cx, before, k).k.threads.current == s.k.threads.current,
        s.announce_priorities(cx, before, k).k.ipc == s.k.ipc,
    decreases k,
{
    reveal(MachineView::announce_priorities);
    if k > 0 {
        lemma_announce(s, cx, before, k - 1);
        let t = s.announce_priorities(cx, before, k - 1);
        lemma_changed(t, cx, k - 1);
        lemma_still(s, t, t.priority_changed(cx, k - 1));
        lemma_reranked(
            s.k.threads,
            t.k.threads,
            t.priority_changed(cx, k - 1).k.threads,
        );
    }
}

pub(crate) proof fn lemma_changed(s: MachineView, cx: Entry, slot: int)
    requires
        0 <= slot < 16,
    ensures
        reranked(s.k.threads, s.priority_changed(cx, slot).k.threads),
        still(s, s.priority_changed(cx, slot)),
        s.priority_changed(cx, slot).k.threads.current == s.k.threads.current,
        s.priority_changed(cx, slot).k.ipc == s.k.ipc,
{
    lemma_ready(s, cx, slot);
}

pub(crate) proof fn lemma_inherited(threads: ThreadTable, replies: [Reply; 16])
    requires
        replies_sound(replies),
    ensures
        reranked(threads, ipc::inherited(threads, replies)),
{
    let own = ThreadTable {
        slots: crate::util::mapped(threads.slots, ipc::uninherited(), 16),
        ..threads
    };
    crate::util::lemma_mapped(threads.slots, ipc::uninherited(), 16);
    lemma_passes(own, replies, 0);
    assert forall|i: int| 0 <= i < 16 implies reranked_thread(
        threads.slots@[i],
        #[trigger] own.slots@[i],
    ) by {
        assert(own.slots@[i] == ipc::uninherited()(threads.slots@[i]));
    }
    lemma_reranked(threads, own, ipc::inherited(threads, replies));
}

pub(crate) proof fn lemma_recompute(s: MachineView, cx: Entry)
    requires
        replies_sound(s.k.ipc.replies),
    ensures
        reranked(s.k.threads, s.recompute(cx).k.threads),
        still(s, s.recompute(cx)),
        s.recompute(cx).k.threads.current == s.k.threads.current,
        s.recompute(cx).k.ipc == s.k.ipc,
{
    lemma_inherited(s.k.threads, s.k.ipc.replies);
    let t = s.with_threads(ipc::inherited(s.k.threads, s.k.ipc.replies));
    assert forall|i: int| 0 <= i < 16 implies same_memory(
        s.k.threads.slots@[i],
        #[trigger] t.k.threads.slots@[i],
    ) by {
        assert(reranked_thread(s.k.threads.slots@[i], t.k.threads.slots@[i]));
    }
    assert(still(s, t));
    lemma_announce(t, cx, s.k.threads, 16);
    lemma_still(s, t, s.recompute(cx));
    lemma_reranked(s.k.threads, t.k.threads, s.recompute(cx).k.threads);
}

pub(crate) proof fn lemma_activate(s: MachineView, cx: Entry, slot: int)
    requires
        0 <= slot < 16,
    ensures
        still(s, s.activate(cx, slot).0),
{
}

pub(crate) proof fn lemma_choice(s: MachineView, cx: Entry)
    ensures
        still(s, s.wait_and_activate(cx).0),
        still(s, s.activate_if_idle(cx).0),
{
    let t = s.searched(cx.cpu as int);
    assert(still(s, t));
    crate::laws::scheduling::lemma_next_in_range(s, cx.cpu as int);
    match s.next_thread(cx.cpu as int) {
        Some(slot) => {
            lemma_activate(t, cx, slot);
            lemma_still(s, t, t.activate(cx, slot).0);
        },
        None => {},
    }
}

pub(crate) proof fn lemma_after_block(s: MachineView, cx: Entry)
    ensures
        still(s, s.schedule_after_block(cx).0),
{
    let t = s.charge_current(cx).disarm();
    lemma_charge(s, cx);
    assert(still(s, t));
    lemma_choice(t, cx);
    lemma_still(s, t, t.wait_and_activate(cx).0);
}

proof fn lemma_leave(s: MachineView, cx: Entry, frame: TrapFrame, state: ThreadState)
    requires
        s.k.threads.runs(cx.cpu as int),
    ensures
        still(s, s.leave(cx, frame, state)),
{
    let t = s.save_current(cx.cpu as int, frame);
    assert(still(s, t));
    lemma_still(s, t, s.leave(cx, frame, state));
}

pub(crate) proof fn lemma_block(s: MachineView, cx: Entry, frame: TrapFrame)
    requires
        s.k.threads.runs(cx.cpu as int),
    ensures
        still(s, s.block(cx, frame).0),
{
    let t = s.charge_current(cx);
    lemma_charge(s, cx);
    lemma_leave(t, cx, frame, ThreadState::Blocked);
    let u = t.leave(cx, frame, ThreadState::Blocked);
    lemma_still(s, t, u);
    lemma_after_block(u, cx);
    lemma_still(s, u, u.schedule_after_block(cx).0);
}

proof fn lemma_current_ready(s: MachineView, cx: Entry, frame: TrapFrame)
    requires
        s.k.threads.runs(cx.cpu as int),
    ensures
        still(s, s.make_current_ready(cx, frame)),
{
    lemma_leave(s, cx, frame, ThreadState::Ready);
    let t = s.leave(cx, frame, ThreadState::Ready);
    let slot = s.k.threads.current@[cx.cpu as int] as int;
    lemma_ready(t, cx, slot);
    lemma_still(s, t, t.thread_ready(cx, slot));
}

pub(crate) proof fn lemma_yield(s: MachineView, cx: Entry, frame: TrapFrame)
    requires
        s.k.threads.runs(cx.cpu as int),
    ensures
        still(s, s.yield_current(cx, frame).0),
{
    let t = s.charge_current(cx);
    lemma_charge(s, cx);
    lemma_current_ready(t, cx, frame);
    let u = t.make_current_ready(cx, frame);
    lemma_still(s, t, u);
    lemma_choice(u, cx);
    lemma_still(s, u, u.wait_and_activate(cx).0);
}

pub(crate) proof fn lemma_preempt(s: MachineView, cx: Entry, frame: TrapFrame)
    requires
        s.k.threads.runs(cx.cpu as int),
    ensures
        still(s, s.preempt_if_needed(cx, frame).0),
{
    let t = s.searched(cx.cpu as int);
    assert(still(s, t));
    crate::laws::scheduling::lemma_next_in_range(s, cx.cpu as int);
    if let Some(next) = s.next_thread(cx.cpu as int) {
        let u = t.charge_current(cx);
        lemma_charge(t, cx);
        lemma_still(s, t, u);
        lemma_current_ready(u, cx, frame);
        let v = u.make_current_ready(cx, frame);
        lemma_still(s, u, v);
        lemma_activate(v, cx, next);
        lemma_still(s, v, v.activate(cx, next).0);
    }
}

proof fn lemma_free_reply(s: MachineView, from: int)
    requires
        0 <= from,
        s.k.ipc.free_reply(from) is Some,
    ensures
        from <= s.k.ipc.free_reply(from)->0 < 16,
    decreases 16 - from,
{
    if from < 16 && s.k.ipc.replies@[from].owner != 0 {
        lemma_free_reply(s, from + 1);
    }
}

proof fn lemma_with_reply(s: MachineView, slot: int, reply: Reply)
    requires
        replies_sound(s.k.ipc.replies),
        0 <= slot < 16,
        reply.wf(),
    ensures
        replies_sound(s.k.ipc.with_reply(slot, reply).replies),
        still(s, s.with_ipc(s.k.ipc.with_reply(slot, reply))),
{
    let n = s.k.ipc.with_reply(slot, reply);
    assert forall|i: int| 0 <= i < 16 implies (#[trigger] n.replies@[i]).wf() by {
        assert(s.k.ipc.replies@[i].wf());
    }
}

pub(crate) proof fn lemma_deliver(
    s: MachineView,
    cx: Entry,
    sender: PendingSender,
    receiver: int,
    endpoint: int,
)
    requires
        replies_sound(s.k.ipc.replies),
        sender.slot < 16,
        0 <= receiver < 16,
        0 <= endpoint < 16,
    ensures
        still(s, s.deliver(cx, sender, receiver, endpoint).0),
        s.deliver(cx, sender, receiver, endpoint).0.k.threads.current == s.k.threads.current,
{
    if sender.is_call {
        let (t, reply) = s.allocate_reply(cx, sender.slot, receiver as u8, endpoint as u8);
        if s.k.ipc.free_reply(0) is Some {
            let slot = s.k.ipc.free_reply(0)->0;
            lemma_free_reply(s, 0);
            assert(s.k.ipc.replies@[slot].wf());
            let right = Reply {
                owner: s.k.task.owner(),
                generation: s.k.ipc.replies@[slot].generation,
                caller: sender.slot,
                server: receiver as u8,
                endpoint: endpoint as u8,
            };
            lemma_with_reply(s, slot, right);
            let u = s.with_ipc(s.k.ipc.with_reply(slot, right));
            lemma_recompute(u, cx);
            lemma_still(s, u, t);
            let v = t.write_message(
                receiver,
                abi::IpcMessage { reply: abi::ReplyHandle(reply->0), ..sender.message },
            );
            assert(still(t, v));
            lemma_still(s, t, v);
            lemma_wake(v, cx, receiver, 0);
            lemma_still(s, v, v.wake(cx, receiver, 0));
        }
    } else {
        lemma_wake(s, cx, sender.slot as int, 0);
        let t = s.wake(cx, sender.slot as int, 0);
        let u = t.write_message(
            receiver,
            abi::IpcMessage { reply: abi::ReplyHandle(0), ..sender.message },
        );
        assert(still(t, u));
        lemma_still(s, t, u);
        lemma_wake(u, cx, receiver, 0);
        lemma_still(s, u, u.wake(cx, receiver, 0));
    }
}

proof fn lemma_send(s: MachineView, cx: Entry, handle: u64, is_call: bool, frame: TrapFrame)
    requires
        s.wf(),
        s.k.threads.runs(cx.cpu as int),
    ensures
        still(s, s.send(cx, handle, is_call, frame).0),
{
    if let Ok(slot) = s.k.ipc.find_endpoint(s.k.task.owner(), handle) {
        let endpoint = s.k.ipc.endpoints@[slot];
        assert(endpoint.wf());
        let sender = PendingSender { slot: s.current(cx), is_call, message: cx.message };
        if endpoint.receivers.count > 0 {
            let receiver = endpoint.receivers.slots@[0];
            let t = s.with_endpoint(
                slot,
                Endpoint { receivers: endpoint.receivers.popped(), ..endpoint },
            );
            assert(still(s, t));
            lemma_deliver(t, cx, sender, receiver as int, slot);
            let (u, outcome) = t.deliver(cx, sender, receiver as int, slot);
            lemma_still(s, t, u);
            assert(still(u, u.requeue_receiver(slot, receiver)));
            lemma_still(s, u, u.requeue_receiver(slot, receiver));
            lemma_block(u, cx, frame.with_result(0));
            lemma_still(s, u, u.block(cx, frame.with_result(0)).0);
            lemma_preempt(u, cx, frame.with_result(0));
            lemma_still(s, u, u.preempt_if_needed(cx, frame.with_result(0)).0);
        } else {
            let t = s.with_endpoint(slot, endpoint.with_sender(sender));
            assert(still(s, t));
            lemma_block(t, cx, frame);
            lemma_still(s, t, t.block(cx, frame).0);
        }
    }
}

proof fn lemma_await(s: MachineView, cx: Entry, slot: int, frame: TrapFrame)
    requires
        s.k.threads.runs(cx.cpu as int),
    ensures
        still(s, s.await_message(cx, slot, frame).0),
{
    let endpoint = s.k.ipc.endpoints@[slot];
    let t = s.with_endpoint(
        slot,
        Endpoint { receivers: endpoint.receivers.pushed(s.current(cx)), ..endpoint },
    );
    assert(still(s, t));
    lemma_block(t, cx, frame);
    lemma_still(s, t, t.block(cx, frame).0);
}

/// The first sender of an endpoint is served, or goes back to its queue.
pub(crate) proof fn lemma_serve(s: MachineView, cx: Entry, slot: int, receiver: int)
    requires
        replies_sound(s.k.ipc.replies),
        0 <= slot < 16,
        s.k.ipc.endpoints@[slot].wf(),
        s.k.ipc.endpoints@[slot].sender_count > 0,
        0 <= receiver < 16,
    ensures
        ({
            let endpoint = s.k.ipc.endpoints@[slot];
            let sender = endpoint.senders@[0];
            let t = s.with_endpoint(slot, endpoint.without_first_sender()).deliver(
                cx,
                sender,
                receiver,
                slot,
            ).0;
            &&& still(s, t)
            &&& still(s, t.requeue_sender(slot, sender))
            &&& t.k.threads.current == s.k.threads.current
        }),
{
    let endpoint = s.k.ipc.endpoints@[slot];
    let sender = endpoint.senders@[0];
    let t = s.with_endpoint(slot, endpoint.without_first_sender());
    assert(still(s, t));
    lemma_deliver(t, cx, sender, receiver, slot);
    let u = t.deliver(cx, sender, receiver, slot).0;
    lemma_still(s, t, u);
    assert(still(u, u.requeue_sender(slot, sender)));
    lemma_still(s, u, u.requeue_sender(slot, sender));
}

proof fn lemma_recv(s: MachineView, cx: Entry, handle: u64, frame: TrapFrame)
    requires
        s.wf(),
        s.k.threads.runs(cx.cpu as int),
    ensures
        still(s, s.recv(cx, handle, frame).0),
{
    if let Ok(slot) = s.k.ipc.find_endpoint(s.k.task.owner(), handle) {
        assert(s.k.ipc.endpoints@[slot].wf());
        if s.k.ipc.endpoints@[slot].sender_count > 0 {
            lemma_serve(s, cx, slot, s.current(cx) as int);
        } else {
            lemma_await(s, cx, slot, frame);
        }
    }
}

pub(crate) proof fn lemma_answer(s: MachineView, cx: Entry, handle: u64)
    requires
        replies_sound(s.k.ipc.replies),
    ensures
        still(s, s.answer(cx, handle).0),
        s.answer(cx, handle).0.k.threads.current == s.k.threads.current,
        s.answer(cx, handle).0.k.ipc.endpoints == s.k.ipc.endpoints,
        replies_sound(s.answer(cx, handle).0.k.ipc.replies),
{
    if let Ok(slot) = s.k.ipc.find_reply(s.k.task.owner(), s.current(cx), handle) {
        let reply = s.k.ipc.replies@[slot];
        assert(reply.wf());
        let t = s.write_message(reply.caller as int, cx.message);
        assert(still(s, t));
        lemma_wake(t, cx, reply.caller as int, 0);
        let u = t.wake(cx, reply.caller as int, 0);
        lemma_still(s, t, u);
        crate::handle::law_generation_moves(reply.generation);
        let unused = Reply::unused(crate::handle::generation_after(reply.generation));
        lemma_with_reply(u, slot, unused);
        let v = u.with_ipc(u.k.ipc.with_reply(slot, unused));
        lemma_still(s, u, v);
        lemma_recompute(v, cx);
        lemma_still(s, v, v.recompute(cx));
    }
}

/// The calls on endpoints move no memory.
pub(crate) proof fn lemma_endpoint_calls(s: MachineView, cx: Entry, frame: TrapFrame)
    requires
        s.wf(),
        s.k.threads.runs(cx.cpu as int),
    ensures
        still(s, s.endpoint_svc(cx, frame).0),
{
    let sysno = frame.x@[8];
    let a = frame.x@[0];
    if sysno == abi::SYS_ENDPOINT_SEND {
        lemma_send(s, cx, a, false, frame);
    } else if sysno == abi::SYS_ENDPOINT_CALL {
        lemma_send(s, cx, a, true, frame);
    } else if sysno == abi::SYS_ENDPOINT_RECV {
        lemma_recv(s, cx, a, frame);
    } else if sysno == abi::SYS_ENDPOINT_REPLY {
        lemma_answer(s, cx, a);
        let t = s.answer(cx, a).0;
        lemma_preempt(t, cx, frame.with_result(0));
        lemma_still(s, t, t.preempt_if_needed(cx, frame.with_result(0)).0);
    } else if sysno == abi::SYS_ENDPOINT_REPLY_RECV {
        lemma_reply_recv(s, cx, a, frame.x@[1], frame);
    }
}

proof fn lemma_reply_recv(s: MachineView, cx: Entry, endpoint: u64, reply: u64, frame: TrapFrame)
    requires
        s.wf(),
        s.k.threads.runs(cx.cpu as int),
    ensures
        still(s, s.reply_recv(cx, endpoint, reply, frame).0),
{
    if let Ok(slot) = s.k.ipc.find_endpoint(s.k.task.owner(), endpoint) {
        lemma_answer(s, cx, reply);
        let (t, error) = s.answer(cx, reply);
        if error is None {
            assert(s.k.ipc.endpoints@[slot].wf());
            if t.k.ipc.endpoints@[slot].sender_count > 0 {
                lemma_serve(t, cx, slot, s.current(cx) as int);
                let served = t.k.ipc.endpoints@[slot];
                let sender = served.senders@[0];
                let u = t.with_endpoint(slot, served.without_first_sender()).deliver(
                    cx,
                    sender,
                    s.current(cx) as int,
                    slot,
                ).0;
                lemma_still(s, t, u);
                lemma_still(s, t, u.requeue_sender(slot, sender));
                lemma_preempt(u, cx, frame.with_result(0));
                lemma_still(s, u, u.preempt_if_needed(cx, frame.with_result(0)).0);
            } else {
                lemma_await(t, cx, slot, frame);
                lemma_still(s, t, t.await_message(cx, slot, frame).0);
            }
        }
    }
}

pub(crate) proof fn lemma_signal(s: MachineView, cx: Entry, handle: u64, badge: u64)
    ensures
        still(s, s.signal(cx, handle, badge).0),
        s.signal(cx, handle, badge).0.k.threads.current == s.k.threads.current,
{
    if let Ok(slot) = s.k.ipc.find_notification(s.k.task.owner(), handle) {
        let notification = s.k.ipc.notifications@[slot];
        let t = s.with_notification(
            slot,
            Notification { pending: 0, waiters: notification.waiters.popped(), ..notification },
        );
        assert(still(s, t));
        let first = notification.waiters.slots@[0] as int;
        lemma_wake(t, cx, first, notification.pending | badge);
        lemma_still(s, t, t.wake(cx, first, notification.pending | badge));
    }
}

/// The calls on notifications move no memory.
pub(crate) proof fn lemma_notification_calls(s: MachineView, cx: Entry, frame: TrapFrame)
    requires
        s.wf(),
        s.k.threads.runs(cx.cpu as int),
    ensures
        still(s, s.notification_svc(cx, frame).0),
{
    let sysno = frame.x@[8];
    let a = frame.x@[0];
    if sysno == abi::SYS_NOTIFICATION_SIGNAL {
        lemma_signal(s, cx, a, frame.x@[1]);
        let t = s.signal(cx, a, frame.x@[1]).0;
        lemma_preempt(t, cx, frame.with_result(0));
        lemma_still(s, t, t.preempt_if_needed(cx, frame.with_result(0)).0);
    } else if sysno == abi::SYS_NOTIFICATION_WAIT {
        if let Ok(slot) = s.k.ipc.find_notification(s.k.task.owner(), a) {
            let notification = s.k.ipc.notifications@[slot];
            let t = s.with_notification(
                slot,
                Notification {
                    waiters: notification.waiters.pushed(s.current(cx)),
                    ..notification
                },
            );
            assert(still(s, t));
            lemma_block(t, cx, frame);
            lemma_still(s, t, t.block(cx, frame).0);
        }
    }
}

pub(crate) proof fn lemma_cancel_replies(s: MachineView, cx: Entry, slot: int, k: int)
    requires
        replies_sound(s.k.ipc.replies),
        0 <= k <= 16,
    ensures
        still(s, s.cancel_replies(cx, slot, k)),
        s.cancel_replies(cx, slot, k).k.threads.current == s.k.threads.current,
        replies_sound(s.cancel_replies(cx, slot, k).k.ipc.replies),
    decreases k,
{
    if k > 0 {
        lemma_cancel_replies(s, cx, slot, k - 1);
        let t = s.cancel_replies(cx, slot, k - 1);
        let reply = t.k.ipc.replies@[k - 1];
        assert(reply.wf());
        lemma_wake(t, cx, reply.caller as int, abi::SYS_ERR_NOT_FOUND);
        let u = if reply.server == slot && reply.caller != slot {
            t.wake(cx, reply.caller as int, abi::SYS_ERR_NOT_FOUND)
        } else {
            t
        };
        lemma_still(s, t, u);
        crate::handle::law_generation_moves(reply.generation);
        let unused = Reply::unused(crate::handle::generation_after(reply.generation));
        lemma_with_reply(u, k - 1, unused);
        lemma_still(s, u, u.with_ipc(u.k.ipc.with_reply(k - 1, unused)));
    }
}

pub(crate) proof fn lemma_cancel(s: MachineView, cx: Entry, slot: int)
    requires
        replies_sound(s.k.ipc.replies),
    ensures
        still(s, s.cancel_thread(cx, slot)),
        s.cancel_thread(cx, slot).k.threads.current == s.k.threads.current,
{
    let t = s.with_ipc(s.k.ipc.forgetting(slot as u8));
    assert(still(s, t));
    lemma_cancel_replies(t, cx, slot, 16);
    let u = t.cancel_replies(cx, slot, 16);
    lemma_still(s, t, u);
    lemma_recompute(u, cx);
    lemma_still(s, u, u.recompute(cx));
}

pub(crate) proof fn lemma_set_priority(s: MachineView, cx: Entry, handle: u64, urgency: u64)
    requires
        s.wf(),
    ensures
        still(s, s.set_priority(cx, handle, urgency).0),
{
    if urgency <= 63 {
        if let Ok(slot) = s.k.threads.resolve(s.k.task.owner(), handle) {
            let t = s.with_threads(
                s.k.threads.with(
                    slot,
                    Thread { base_priority: urgency as u8, ..s.k.threads.slots@[slot] },
                ),
            );
            assert(still(s, t));
            lemma_recompute(t, cx);
            let u = t.recompute(cx);
            lemma_still(s, t, u);
            lemma_changed(u, cx, slot);
            lemma_still(s, u, u.priority_changed(cx, slot));
        }
    }
}

pub(crate) proof fn lemma_control(s: MachineView, cx: Entry, handle: u64)
    ensures
        still(s, s.thread_start(cx, handle).0),
        still(s, s.thread_suspend(handle).0),
{
    if let Ok(slot) = s.k.threads.resolve_control(s.k.task.owner(), handle) {
        assert(0 <= slot < 16);
        let t = s.with_state(slot, ThreadState::Ready);
        assert(still(s, t));
        lemma_ready(t, cx, slot);
        lemma_still(s, t, t.thread_ready(cx, slot));
        assert(still(s, s.with_state(slot, ThreadState::Suspended)));
    }
}

} // verus!
