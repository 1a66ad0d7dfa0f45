//! The numbers by which ready threads are ordered stay below the one that is given out next, until
//! the numbers run out.
use crate::abi;
use crate::hw::HwOp;
use crate::laws::calls;
use crate::laws::scheduling::{self, numbered};
use crate::laws::stillness::{self, replies_sound};
use crate::machine::{Entry, Kernel, MachineView};
use crate::memory::{mmu, vspace};
use crate::object::ipc::{self, Endpoint, Notification, PendingSender, Reply};
use crate::object::thread::{self, Thread, ThreadState, ThreadTable};
use crate::syscall::dispatch::{self, TrapFrame};
use crate::util::ArrayUpdate;
use vstd::prelude::*;

verus! {

/// On the way from `s` to `t` at most `n` numbers were given out, and all threads keep smaller
/// ones than the next, as long as the numbers do not run out.
pub open spec fn pace(s: MachineView, t: MachineView, n: int) -> bool {
    numbered(s) && s.k.sched.ready_sequence + n <= u64::MAX ==> numbered(t)
        && t.k.sched.ready_sequence <= s.k.sched.ready_sequence + n
}

/// No thread got another number.
spec fn same_numbers(s: MachineView, t: MachineView) -> bool {
    &&& t.k.sched.ready_sequence == s.k.sched.ready_sequence
    &&& forall|i: int|
        0 <= i < 16 ==> (#[trigger] t.k.threads.slots@[i]).ready_sequence
            == s.k.threads.slots@[i].ready_sequence
}

proof fn lemma_same(s: MachineView, t: MachineView)
    requires
        same_numbers(s, t),
    ensures
        pace(s, t, 0),
{
}

proof fn lemma_pace(s: MachineView, t: MachineView, u: MachineView, a: int, b: int)
    requires
        pace(s, t, a),
        pace(t, u, b),
        0 <= a,
        0 <= b,
    ensures
        pace(s, u, a + b),
{
}

proof fn lemma_ready(s: MachineView, cx: Entry, slot: int)
    requires
        0 <= slot < 16,
    ensures
        pace(s, s.thread_ready(cx, slot), 1),
{
    let t = s.enqueued(slot);
    assert(pace(s, t, 1)) by {
        assert forall|i: int| 0 <= i < 16 && i != slot implies (
        #[trigger] t.k.threads.slots@[i]).ready_sequence
            == s.k.threads.slots@[i].ready_sequence by {}
    }
    assert(same_numbers(t, t.charge_current(cx).arm_full(cx)));
    lemma_same(t, t.charge_current(cx).arm_full(cx));
}

proof fn lemma_wake(s: MachineView, cx: Entry, slot: int, value: u64)
    ensures
        pace(s, s.wake(cx, slot, value), 1),
{
    let thread = s.k.threads.slots@[slot];
    if 0 <= slot < 16 && thread.state == ThreadState::Blocked {
        let t = s.with_threads(
            s.k.threads.with(
                slot,
                Thread {
                    context: thread.context.with_result(value),
                    state: ThreadState::Ready,
                    running_cpu: thread::NONE,
                    ..thread
                },
            ),
        );
        assert(same_numbers(s, t));
        lemma_ready(t, cx, slot);
    }
}

spec fn same_table_numbers(a: ThreadTable, b: ThreadTable) -> bool {
    forall|i: int|
        0 <= i < 16 ==> (#[trigger] b.slots@[i]).ready_sequence == a.slots@[i].ready_sequence
}

proof fn lemma_pass(threads: ThreadTable, replies: [Reply; 16], k: int)
    requires
        replies_sound(replies),
        0 <= k <= 16,
    ensures
        same_table_numbers(threads, ipc::inherit_pass(threads, replies, k)),
    decreases k,
{
    if k > 0 {
        lemma_pass(threads, replies, k - 1);
        assert(replies@[k - 1].wf());
        let t = ipc::inherit_pass(threads, replies, k - 1);
        assert(same_table_numbers(t, ipc::inherit_pass(threads, replies, k)));
    }
}

proof fn lemma_passes(threads: ThreadTable, replies: [Reply; 16], pass: int)
    requires
        replies_sound(replies),
        0 <= pass,
    ensures
        same_table_numbers(threads, ipc::inherit_all(threads, replies, pass)),
    decreases 16 - pass,
{
    if pass < 16 {
        let next = ipc::inherit_pass(threads, replies, 16);
        lemma_pass(threads, replies, 16);
        if next != threads {
            lemma_passes(next, replies, pass + 1);
        }
    }
}

proof fn lemma_announce(s: MachineView, cx: Entry, before: ThreadTable, k: int)
    requires
        0 <= k <= 16,
    ensures
        pace(s, s.announce_priorities(cx, before, k), k),
    decreases k,
{
    reveal(MachineView::announce_priorities);
    if k > 0 {
        lemma_announce(s, cx, before, k - 1);
        let t = s.announce_priorities(cx, before, k - 1);
        lemma_changed(t, cx, k - 1);
        lemma_pace(s, t, t.priority_changed(cx, k - 1), k - 1, 1);
    }
}

proof fn lemma_changed(s: MachineView, cx: Entry, slot: int)
    requires
        0 <= slot < 16,
    ensures
        pace(s, s.priority_changed(cx, slot), 1),
{
    lemma_ready(s, cx, slot);
}

proof fn lemma_recompute(s: MachineView, cx: Entry)
    requires
        replies_sound(s.k.ipc.replies),
    ensures
        pace(s, s.recompute(cx), 16),
{
    let own = ThreadTable {
        slots: crate::util::mapped(s.k.threads.slots, ipc::uninherited(), 16),
        ..s.k.threads
    };
    crate::util::lemma_mapped(s.k.threads.slots, ipc::uninherited(), 16);
    lemma_passes(own, s.k.ipc.replies, 0);
    let t = s.with_threads(ipc::inherited(s.k.threads, s.k.ipc.replies));
    assert forall|i: int| 0 <= i < 16 implies (#[trigger] t.k.threads.slots@[i]).ready_sequence
        == s.k.threads.slots@[i].ready_sequence by {
        assert(own.slots@[i] == ipc::uninherited()(s.k.threads.slots@[i]));
    }
    lemma_same(s, t);
    lemma_announce(t, cx, s.k.threads, 16);
    lemma_pace(s, t, s.recompute(cx), 0, 16);
}

proof fn lemma_activate(s: MachineView, cx: Entry, slot: int)
    requires
        0 <= slot < 16,
    ensures
        pace(s, s.activate(cx, slot).0, 0),
{
    assert(same_numbers(s, s.activate(cx, slot).0));
}

proof fn lemma_choice(s: MachineView, cx: Entry)
    ensures
        pace(s, s.wait_and_activate(cx).0, 0),
        pace(s, s.activate_if_idle(cx).0, 0),
{
    let t = s.searched(cx.cpu as int);
    assert(same_numbers(s, t));
    scheduling::lemma_next_in_range(s, cx.cpu as int);
    match s.next_thread(cx.cpu as int) {
        Some(slot) => {
            lemma_activate(t, cx, slot);
        },
        None => {},
    }
}

proof fn lemma_after_block(s: MachineView, cx: Entry)
    ensures
        pace(s, s.schedule_after_block(cx).0, 0),
{
    let t = s.charge_current(cx).disarm();
    assert(same_numbers(s, t));
    lemma_choice(t, cx);
}

proof fn lemma_leave(s: MachineView, cx: Entry, frame: TrapFrame, state: ThreadState)
    requires
        s.k.threads.runs(cx.cpu as int),
    ensures
        pace(s, s.leave(cx, frame, state), 0),
{
    let t = s.save_current(cx.cpu as int, frame);
    assert(same_numbers(s, t));
    assert(same_numbers(t, s.leave(cx, frame, state)));
}

proof fn lemma_block(s: MachineView, cx: Entry, frame: TrapFrame)
    requires
        s.k.threads.runs(cx.cpu as int),
    ensures
        pace(s, s.block(cx, frame).0, 0),
{
    let t = s.charge_current(cx);
    assert(same_numbers(s, t));
    lemma_leave(t, cx, frame, ThreadState::Blocked);
    lemma_after_block(t.leave(cx, frame, ThreadState::Blocked), cx);
}

proof fn lemma_current_ready(s: MachineView, cx: Entry, frame: TrapFrame)
    requires
        s.k.threads.runs(cx.cpu as int),
    ensures
        pace(s, s.make_current_ready(cx, frame), 1),
{
    lemma_leave(s, cx, frame, ThreadState::Ready);
    let t = s.leave(cx, frame, ThreadState::Ready);
    lemma_ready(t, cx, s.k.threads.current@[cx.cpu as int] as int);
}

proof fn lemma_yield(s: MachineView, cx: Entry, frame: TrapFrame)
    requires
        s.k.threads.runs(cx.cpu as int),
    ensures
        pace(s, s.yield_current(cx, frame).0, 1),
{
    let t = s.charge_current(cx);
    assert(same_numbers(s, t));
    lemma_current_ready(t, cx, frame);
    lemma_choice(t.make_current_ready(cx, frame), cx);
}

proof fn lemma_preempt(s: MachineView, cx: Entry, frame: TrapFrame)
    requires
        s.k.threads.runs(cx.cpu as int),
    ensures
        pace(s, s.preempt_if_needed(cx, frame).0, 1),
{
    let t = s.searched(cx.cpu as int);
    assert(same_numbers(s, t));
    scheduling::lemma_next_in_range(s, cx.cpu as int);
    if let Some(next) = s.next_thread(cx.cpu as int) {
        let u = t.charge_current(cx);
        assert(same_numbers(t, u));
        assert(same_numbers(u, u.arm_full(cx)));
        lemma_current_ready(u, cx, frame);
        lemma_activate(u.make_current_ready(cx, frame), cx, next);
    }
}

proof fn lemma_deliver(
    s: MachineView,
    cx: Entry,
    sender: PendingSender,
    receiver: int,
    endpoint: int,
)
    requires
        replies_sound(s.k.ipc.replies),
        sender.slot < 16,
        0 <= receiver < 16,
        0 <= endpoint < 16,
    ensures
        pace(s, s.deliver(cx, sender, receiver, endpoint).0, 17),
{
    if sender.is_call {
        let (t, reply) = s.allocate_reply(cx, sender.slot, receiver as u8, endpoint as u8);
        if s.k.ipc.free_reply(0) is Some {
            let slot = s.k.ipc.free_reply(0)->0;
            scheduling::lemma_free_reply(s, 0);
            assert(s.k.ipc.replies@[slot].wf());
            let u = s.with_ipc(
                s.k.ipc.with_reply(
                    slot,
                    Reply {
                        owner: s.k.task.owner(),
                        generation: s.k.ipc.replies@[slot].generation,
                        caller: sender.slot,
                        server: receiver as u8,
                        endpoint: endpoint as u8,
                    },
                ),
            );
            assert forall|i: int| 0 <= i < 16 implies (#[trigger] u.k.ipc.replies@[i]).wf() by {
                assert(s.k.ipc.replies@[i].wf());
            }
            assert(same_numbers(s, u));
            lemma_recompute(u, cx);
            let v = t.write_message(
                receiver,
                abi::IpcMessage { reply: abi::ReplyHandle(reply->0), ..sender.message },
            );
            assert(same_numbers(t, v));
            lemma_wake(v, cx, receiver, 0);
            lemma_pace(s, v, v.wake(cx, receiver, 0), 16, 1);
        }
    } else {
        lemma_wake(s, cx, sender.slot as int, 0);
        let t = s.wake(cx, sender.slot as int, 0);
        let u = t.write_message(
            receiver,
            abi::IpcMessage { reply: abi::ReplyHandle(0), ..sender.message },
        );
        assert(same_numbers(t, u));
        lemma_wake(u, cx, receiver, 0);
        lemma_pace(s, u, u.wake(cx, receiver, 0), 1, 1);
    }
}

#[verifier::spinoff_prover]
proof fn lemma_send(s: MachineView, cx: Entry, handle: u64, is_call: bool, frame: TrapFrame)
    requires
        s.wf(),
        s.k.threads.runs(cx.cpu as int),
    ensures
        pace(s, s.send(cx, handle, is_call, frame).0, 18),
{
    if let Ok(slot) = s.k.ipc.find_endpoint(s.k.task.owner(), handle) {
        let endpoint = s.k.ipc.endpoints@[slot];
        assert(endpoint.wf());
        let sender = PendingSender { slot: s.current(cx), is_call, message: cx.message };
        if endpoint.receivers.count > 0 {
            let receiver = endpoint.receivers.slots@[0];
            let t = s.with_endpoint(
                slot,
                Endpoint { receivers: endpoint.receivers.popped(), ..endpoint },
            );
            assert(same_numbers(s, t));
            lemma_deliver(t, cx, sender, receiver as int, slot);
            stillness::lemma_deliver(t, cx, sender, receiver as int, slot);
            let (u, outcome) = t.deliver(cx, sender, receiver as int, slot);
            assert(same_numbers(u, u.requeue_receiver(slot, receiver)));
            lemma_block(u, cx, frame.with_result(0));
            lemma_preempt(u, cx, frame.with_result(0));
        } else {
            let t = s.with_endpoint(slot, endpoint.with_sender(sender));
            assert(same_numbers(s, t));
            lemma_block(t, cx, frame);
        }
    }
}

proof fn lemma_await(s: MachineView, cx: Entry, slot: int, frame: TrapFrame)
    requires
        s.k.threads.runs(cx.cpu as int),
    ensures
        pace(s, s.await_message(cx, slot, frame).0, 0),
{
    let endpoint = s.k.ipc.endpoints@[slot];
    let t = s.with_endpoint(
        slot,
        Endpoint { receivers: endpoint.receivers.pushed(s.current(cx)), ..endpoint },
    );
    assert(same_numbers(s, t));
    lemma_block(t, cx, frame);
}

proof fn lemma_serve(s: MachineView, cx: Entry, slot: int, receiver: int)
    requires
        replies_sound(s.k.ipc.replies),
        0 <= slot < 16,
        s.k.ipc.endpoints@[slot].wf(),
        s.k.ipc.endpoints@[slot].sender_count > 0,
        0 <= receiver < 16,
    ensures
        ({
            let endpoint = s.k.ipc.endpoints@[slot];
            let sender = endpoint.senders@[0];
            let t = s.with_endpoint(slot, endpoint.without_first_sender()).deliver(
                cx,
                sender,
                receiver,
                slot,
            ).0;
            pace(s, t, 17) && pace(s, t.requeue_sender(slot, sender), 17)
        }),
{
    let endpoint = s.k.ipc.endpoints@[slot];
    let sender = endpoint.senders@[0];
    let t = s.with_endpoint(slot, endpoint.without_first_sender());
    assert(same_numbers(s, t));
    lemma_deliver(t, cx, sender, receiver, slot);
    let u = t.deliver(cx, sender, receiver, slot).0;
    assert(same_numbers(u, u.requeue_sender(slot, sender)));
}

proof fn lemma_answer(s: MachineView, cx: Entry, handle: u64)
    requires
        replies_sound(s.k.ipc.replies),
    ensures
        pace(s, s.answer(cx, handle).0, 17),
{
    if let Ok(slot) = s.k.ipc.find_reply(s.k.task.owner(), s.current(cx), handle) {
        let reply = s.k.ipc.replies@[slot];
        assert(reply.wf());
        let t = s.write_message(reply.caller as int, cx.message);
        assert(same_numbers(s, t));
        lemma_wake(t, cx, reply.caller as int, 0);
        stillness::lemma_wake(t, cx, reply.caller as int, 0);
        let u = t.wake(cx, reply.caller as int, 0);
        crate::handle::law_generation_moves(reply.generation);
        let v = u.with_ipc(
            u.k.ipc.with_reply(
                slot,
                Reply::unused(crate::handle::generation_after(reply.generation)),
            ),
        );
        assert forall|i: int| 0 <= i < 16 implies (#[trigger] v.k.ipc.replies@[i]).wf() by {
            assert(s.k.ipc.replies@[i].wf());
        }
        assert(same_numbers(u, v));
        lemma_recompute(v, cx);
        lemma_pace(s, v, v.recompute(cx), 1, 16);
    }
}

proof fn lemma_reply_recv(s: MachineView, cx: Entry, endpoint: u64, reply: u64, frame: TrapFrame)
    requires
        s.wf(),
        s.k.threads.runs(cx.cpu as int),
    ensures
        pace(s, s.reply_recv(cx, endpoint, reply, frame).0, 35),
{
    if let Ok(slot) = s.k.ipc.find_endpoint(s.k.task.owner(), endpoint) {
        lemma_answer(s, cx, reply);
        stillness::lemma_answer(s, cx, reply);
        let (t, error) = s.answer(cx, reply);
        if error is None {
            assert(s.k.ipc.endpoints@[slot].wf());
            if t.k.ipc.endpoints@[slot].sender_count > 0 {
                let receiver = s.current(cx) as int;
                lemma_serve(t, cx, slot, receiver);
                stillness::lemma_serve(t, cx, slot, receiver);
                let served = t.k.ipc.endpoints@[slot];
                let sender = served.senders@[0];
                let u = t.with_endpoint(slot, served.without_first_sender()).deliver(
                    cx,
                    sender,
                    receiver,
                    slot,
                ).0;
                lemma_pace(s, t, u, 17, 17);
                lemma_preempt(u, cx, frame.with_result(0));
                lemma_pace(s, u, u.preempt_if_needed(cx, frame.with_result(0)).0, 34, 1);
            } else {
                lemma_await(t, cx, slot, frame);
            }
        }
    }
}

#[verifier::spinoff_prover]
proof fn lemma_endpoint_calls(s: MachineView, cx: Entry, frame: TrapFrame)
    requires
        s.wf(),
        s.k.threads.runs(cx.cpu as int),
    ensures
        pace(s, s.endpoint_svc(cx, frame).0, 35),
{
    let sysno = frame.x@[8];
    let a = frame.x@[0];
    if sysno == abi::SYS_ENDPOINT_SEND {
        lemma_send(s, cx, a, false, frame);
    } else if sysno == abi::SYS_ENDPOINT_CALL {
        lemma_send(s, cx, a, true, frame);
    } else if sysno == abi::SYS_ENDPOINT_RECV {
        if let Ok(slot) = s.k.ipc.find_endpoint(s.k.task.owner(), a) {
            assert(s.k.ipc.endpoints@[slot].wf());
            if s.k.ipc.endpoints@[slot].sender_count > 0 {
                lemma_serve(s, cx, slot, s.current(cx) as int);
            } else {
                lemma_await(s, cx, slot, frame);
            }
        }
    } else if sysno == abi::SYS_ENDPOINT_REPLY {
        lemma_answer(s, cx, a);
        stillness::lemma_answer(s, cx, a);
        let t = s.answer(cx, a).0;
        lemma_preempt(t, cx, frame.with_result(0));
        lemma_pace(s, t, t.preempt_if_needed(cx, frame.with_result(0)).0, 17, 1);
    } else if sysno == abi::SYS_ENDPOINT_REPLY_RECV {
        lemma_reply_recv(s, cx, a, frame.x@[1], frame);
    } else {
        assert(same_numbers(s, s.endpoint_svc(cx, frame).0));
    }
}

proof fn lemma_signal(s: MachineView, cx: Entry, handle: u64, badge: u64)
    ensures
        pace(s, s.signal(cx, handle, badge).0, 1),
{
    if let Ok(slot) = s.k.ipc.find_notification(s.k.task.owner(), handle) {
        let notification = s.k.ipc.notifications@[slot];
        let t = s.with_notification(
            slot,
            Notification { pending: 0, waiters: notification.waiters.popped(), ..notification },
        );
        assert(same_numbers(s, t));
        lemma_wake(t, cx, notification.waiters.slots@[0] as int, notification.pending | badge);
    }
}

#[verifier::spinoff_prover]
proof fn lemma_notification_calls(s: MachineView, cx: Entry, frame: TrapFrame)
    requires
        s.wf(),
        s.k.threads.runs(cx.cpu as int),
    ensures
        pace(s, s.notification_svc(cx, frame).0, 2),
{
    let sysno = frame.x@[8];
    let a = frame.x@[0];
    if sysno == abi::SYS_NOTIFICATION_SIGNAL {
        lemma_signal(s, cx, a, frame.x@[1]);
        stillness::lemma_signal(s, cx, a, frame.x@[1]);
        let t = s.signal(cx, a, frame.x@[1]).0;
        lemma_preempt(t, cx, frame.with_result(0));
        lemma_pace(s, t, t.preempt_if_needed(cx, frame.with_result(0)).0, 1, 1);
    } else if sysno == abi::SYS_NOTIFICATION_WAIT {
        if let Ok(slot) = s.k.ipc.find_notification(s.k.task.owner(), a) {
            let notification = s.k.ipc.notifications@[slot];
            let t = s.with_notification(
                slot,
                Notification {
                    waiters: notification.waiters.pushed(s.current(cx)),
                    ..notification
                },
            );
            assert(same_numbers(s, t));
            lemma_block(t, cx, frame);
        }
    } else {
        assert(same_numbers(s, s.notification_svc(cx, frame).0));
    }
}

proof fn lemma_cancel_replies(s: MachineView, cx: Entry, slot: int, k: int)
    requires
        replies_sound(s.k.ipc.replies),
        0 <= k <= 16,
    ensures
        pace(s, s.cancel_replies(cx, slot, k), k),
    decreases k,
{
    if k > 0 {
        lemma_cancel_replies(s, cx, slot, k - 1);
        let t = s.cancel_replies(cx, slot, k - 1);
        let reply = t.k.ipc.replies@[k - 1];
        lemma_wake(t, cx, reply.caller as int, abi::SYS_ERR_NOT_FOUND);
        let u = if reply.server == slot && reply.caller != slot {
            t.wake(cx, reply.caller as int, abi::SYS_ERR_NOT_FOUND)
        } else {
            t
        };
        let v = s.cancel_replies(cx, slot, k);
        if v != t {
            assert(same_numbers(u, v));
        }
        lemma_pace(s, t, v, k - 1, 1);
    }
}

/// When a thread ends, up to 32 others become ready or get another priority.
#[verifier::spinoff_prover]
proof fn lemma_thread_exit(s: MachineView, cx: Entry, frame: TrapFrame)
    requires
        s.wf(),
        s.k.threads.runs(cx.cpu as int),
    ensures
        pace(s, s.thread_exit(cx, frame).0, 32),
{
    let slot = s.k.threads.current@[cx.cpu as int] as int;
    let a = s.save_current(cx.cpu as int, frame);
    assert(same_numbers(s, a));
    let b = a.with_ipc(a.k.ipc.forgetting(slot as u8));
    assert(same_numbers(a, b));
    lemma_cancel_replies(b, cx, slot, 16);
    stillness::lemma_cancel_replies(b, cx, slot, 16);
    let c = b.cancel_replies(cx, slot, 16);
    lemma_recompute(c, cx);
    let d = c.recompute(cx);
    lemma_pace(s, c, d, 16, 16);
    let thread = d.k.threads.slots@[slot];
    let root = thread.vspace_root;
    let pages: u64 = if thread.ipc_pa != 0 {
        1
    } else {
        0
    };
    scheduling::lemma_drop_pages(
        d,
        root,
        thread.stack_va as int,
        thread.stack_pa,
        thread.stack_pages,
    );
    let e = d.drop_pages(root, thread.stack_va as int, thread.stack_pa, thread.stack_pages).0;
    scheduling::lemma_drop_pages(e, root, thread.ipc_va as int, thread.ipc_pa, pages);
    let f = e.drop_ipc(root, thread).0;
    assert(same_numbers(d, e) && same_numbers(e, f));
    let g = f.with_spaces(f.k.spaces.thread_removed(thread.vspace_handle)).op(HwOp::FlushTlb);
    let h = g.with_threads(
        g.k.threads.with(
            slot,
            Thread {
                base_priority: thread.base_priority,
                effective_priority: thread.effective_priority,
                ready_sequence: thread.ready_sequence,
                runtime_ticks: thread.runtime_ticks,
                ..Thread::empty(
                    crate::handle::generation_after(thread.generation),
                    ThreadState::Exited,
                )
            },
        ),
    );
    assert(same_numbers(f, h));
    lemma_after_block(h, cx);
}

/// A new thread has the number zero, until it becomes ready.
proof fn lemma_new_thread(s: MachineView, t: MachineView, slot: int)
    requires
        t.k.sched.ready_sequence == s.k.sched.ready_sequence,
        t.k.threads.slots@[slot].ready_sequence == 0,
        forall|i: int|
            0 <= i < 16 && i != slot ==> (#[trigger] t.k.threads.slots@[i])
                == s.k.threads.slots@[i],
    ensures
        pace(s, t, 0),
{
}

#[verifier::spinoff_prover]
proof fn lemma_thread_create_mapped(
    s: MachineView,
    cx: Entry,
    slot: int,
    stack_pa: u64,
    ipc_pa: u64,
    entry: u64,
    arg: u64,
    cpu: u64,
    urgency: u64,
    mcp: u64,
)
    requires
        0 <= slot < 16,
    ensures
        pace(
            s,
            s.thread_create_mapped(
                cx,
                slot,
                stack_pa,
                ipc_pa,
                entry,
                arg,
                cpu,
                urgency,
                mcp,
            ).0,
            1,
        ),
{
    let made = s.thread_create_mapped(
        cx,
        slot,
        stack_pa,
        ipc_pa,
        entry,
        arg,
        cpu,
        urgency,
        mcp,
    );
    let root = s.k.active_table;
    let stack_va = thread::stack_base_of(slot);
    let ipc_va = thread::ipc_va_of(slot);
    let (t, no_stack) = s.map_checked(root, stack_va, stack_pa as int, mmu::MMU_USER_RW, 64);
    vspace::lemma_map_checked_frame(s, root, stack_va, stack_pa as int, mmu::MMU_USER_RW, 64);
    let (u, no_ipc) = t.map_checked(root, ipc_va, ipc_pa as int, mmu::MMU_USER_RW, 1);
    vspace::lemma_map_checked_frame(t, root, ipc_va, ipc_pa as int, mmu::MMU_USER_RW, 1);
    vspace::lemma_unmap_run_frame(u, root, stack_va, 64);
    vspace::lemma_unmap_run_frame(u.unmap_run(root, stack_va, 64).0, root, ipc_va, 1);
    let handle = u.k.spaces.handle_on(cx.cpu);
    let found = u.k.spaces.find(handle);
    if no_stack is None && no_ipc is None && found is Ok && u.k.spaces.spaces@[found->Ok_0]
        .active_thread_count != u16::MAX {
        let generation = u.k.threads.slots@[slot].generation;
        let zero = TrapFrame::zeroed();
        let name = crate::handle::handle_of(slot, generation) as u64;
        let new = Thread {
            generation,
            owner: u.k.task.owner(),
            creator_owner: u.k.task.owner(),
            vspace_handle: handle,
            vspace_root: root,
            state: ThreadState::Ready,
            context: TrapFrame {
                x: zero.x.upd(0, arg).upd(1, name).upd(2, ipc_va as u64),
                sp_el0: (stack_va + 0x4_0000) as u64,
                elr_el1: entry,
                ..zero
            },
            stack_pa,
            stack_pages: 64,
            stack_va: stack_va as u64,
            ipc_pa,
            ipc_va: ipc_va as u64,
            affinity_cpu: cpu as u8,
            base_priority: urgency as u8,
            effective_priority: urgency as u8,
            max_control_priority: mcp as u8,
            running_cpu: thread::NONE,
            ready_sequence: 0,
            runtime_ticks: 0,
        };
        let x = u.with_spaces(u.k.spaces.thread_added(found->Ok_0)).with_threads(
            u.k.threads.with(slot, new),
        );
        lemma_new_thread(s, x, slot);
        lemma_ready(x, cx, slot);
        assert(made.0 == x.thread_ready(cx, slot));
    } else {
        assert(same_numbers(s, made.0));
    }
}

#[verifier::spinoff_prover]
proof fn lemma_thread_create(
    s: MachineView,
    cx: Entry,
    entry: u64,
    arg: u64,
    cpu: u64,
    urgency: u64,
    mcp: u64,
)
    ensures
        pace(s, s.thread_create(cx, entry, arg, cpu, urgency, mcp).0, 1),
{
    let made = s.thread_create(cx, entry, arg, cpu, urgency, mcp).0;
    let (mem, stack) = s.k.mem.pages_alloc(64);
    let t = s.with_mem(mem);
    let (mem2, page) = t.k.mem.page_alloc();
    let slot = s.k.threads.free_slot(1);
    if s.k.threads.initialized && s.thread_request_ok(cpu, urgency, mcp) && s.user_executable(
        s.k.active_table,
        entry as int,
    ) && slot is Some && stack is Some && page is Some {
        scheduling::lemma_free_slot(s.k.threads, 1);
        let u = t.with_mem(mem2).op(HwOp::Zero { pa: stack->0, bytes: 0x4_0000 }).op(
            HwOp::Zero { pa: page->0, bytes: 4096 },
        );
        assert(same_numbers(s, u));
        lemma_thread_create_mapped(
            u,
            cx,
            slot->0,
            stack->0,
            page->0,
            entry,
            arg,
            cpu,
            urgency,
            mcp,
        );
    } else {
        assert(same_numbers(s, made));
    }
}

#[verifier::spinoff_prover]
proof fn lemma_thread_calls(s: MachineView, cx: Entry, frame: TrapFrame)
    requires
        s.wf(),
        s.k.threads.runs(cx.cpu as int),
    ensures
        pace(s, s.thread_svc(cx, frame).0, 32),
{
    let sysno = frame.x@[8];
    let a = frame.x@[0];
    let b = frame.x@[1];
    if sysno == abi::SYS_THREAD_CREATE {
        lemma_thread_create(s, cx, a, b, frame.x@[2], frame.x@[3], frame.x@[4]);
    } else if sysno == abi::SYS_THREAD_EXIT {
        lemma_thread_exit(s, cx, frame);
    } else if sysno == abi::SYS_THREAD_YIELD {
        lemma_yield(s, cx, frame.with_result(0));
    } else if sysno == abi::SYS_THREAD_SET_PRIORITY {
        lemma_set_priority(s, cx, a, b);
    }
}

proof fn lemma_set_priority(s: MachineView, cx: Entry, handle: u64, urgency: u64)
    requires
        s.wf(),
    ensures
        pace(s, s.set_priority(cx, handle, urgency).0, 17),
{
    if urgency <= 63 {
        if let Ok(slot) = s.k.threads.resolve(s.k.task.owner(), handle) {
            let t = s.with_threads(
                s.k.threads.with(
                    slot,
                    Thread { base_priority: urgency as u8, ..s.k.threads.slots@[slot] },
                ),
            );
            assert(same_numbers(s, t));
            lemma_recompute(t, cx);
            let u = t.recompute(cx);
            lemma_changed(u, cx, slot);
            lemma_pace(s, u, u.priority_changed(cx, slot), 16, 1);
        }
    }
}

#[verifier::spinoff_prover]
proof fn lemma_builder_calls(s: MachineView, cx: Entry, frame: TrapFrame)
    ensures
        pace(s, s.builder_svc(cx, frame).0, 1),
{
    let sysno = frame.x@[8];
    let a = frame.x@[0];
    let b = frame.x@[1];
    let owner = s.k.task.owner();
    let n = s.builder_svc(cx, frame).0;
    if sysno == abi::SYS_VSPACE_CREATE || sysno == abi::SYS_VSPACE_DESTROY {
        calls::lemma_space_calls(s, owner, a);
    } else if sysno == abi::SYS_FRAME_MAP_TO {
        calls::lemma_map_frame(
            s,
            owner,
            a,
            b,
            frame.x@[2],
            frame.x@[3],
            frame.x@[4],
            frame.x@[5],
            false,
        );
    } else if sysno == abi::SYS_THREAD_CREATE_IN {
        lemma_thread_create_in(s, a, b, cx.config);
    } else if let Ok(slot) = s.k.threads.resolve_control(owner, a) {
        assert(0 <= slot < 16);
        if sysno == abi::SYS_THREAD_START {
            let t = s.with_state(slot, ThreadState::Ready);
            assert(same_numbers(s, t));
            lemma_ready(t, cx, slot);
        } else if sysno == abi::SYS_THREAD_SUSPEND {
            assert(same_numbers(s, s.with_state(slot, ThreadState::Suspended)));
        } else {
            let thread = s.k.threads.slots@[slot];
            scheduling::lemma_drop_pages(
                s,
                thread.vspace_root,
                thread.ipc_va as int,
                thread.ipc_pa,
                if thread.ipc_pa != 0 {
                    1
                } else {
                    0
                },
            );
            assert(same_numbers(s, n));
        }
    }
}

#[verifier::spinoff_prover]
proof fn lemma_thread_create_in(
    s: MachineView,
    target: u64,
    config_va: u64,
    config: abi::ThreadCreateConfig,
)
    ensures
        pace(s, s.thread_create_in(target, config_va, config).0, 0),
{
    let made = s.thread_create_in(target, config_va, config).0;
    let (mem, page) = s.k.mem.page_alloc();
    match (s.k.spaces.find_for(s.k.task.owner(), target), s.k.threads.free_slot(1), page) {
        (Ok(space), Some(slot), Some(ipc_pa)) => {
            scheduling::lemma_free_slot(s.k.threads, 1);
            let t = s.with_mem(mem).op(HwOp::Zero { pa: ipc_pa, bytes: 4096 });
            let root = t.k.spaces.spaces@[space].root_pa;
            let ipc_va = thread::ipc_va_of(slot);
            vspace::lemma_map_checked_frame(t, root, ipc_va, ipc_pa as int, mmu::MMU_USER_RW, 1);
            let (u, no_ipc) = t.map_checked(root, ipc_va, ipc_pa as int, mmu::MMU_USER_RW, 1);
            vspace::lemma_unmap_run_frame(u, root, ipc_va, 1);
            let last = t.thread_create_in_mapped(slot, space, target, ipc_pa, config).0;
            if no_ipc is None && u.k.spaces.spaces@[space].active_thread_count != u16::MAX {
                lemma_new_thread(s, last, slot);
            } else {
                assert(same_numbers(s, last));
            }
            if made != last {
                assert(same_numbers(s, made));
            }
        },
        _ => {
            assert(same_numbers(s, made));
        },
    }
}

/// How many numbers one system call gives out at most.
pub const NUMBERS_PER_CALL: u64 = 35;

/// Whatever system call a thread makes, the numbers of ready threads stay below the next one, and
/// the call gives out a bounded number of them.
pub proof fn law_calls_keep_numbers(s: MachineView, cx: Entry, frame: TrapFrame)
    requires
        s.wf(),
        s.k.threads.runs(cx.cpu as int),
        numbered(s),
        s.k.sched.ready_sequence <= u64::MAX - NUMBERS_PER_CALL,
    ensures
        numbered(s.svc_frame(cx, frame).0),
        s.svc_frame(cx, frame).0.k.sched.ready_sequence <= s.k.sched.ready_sequence
            + NUMBERS_PER_CALL,
{
    let sysno = frame.x@[8];
    if dispatch::is_thread_call(sysno) {
        lemma_thread_calls(s, cx, frame);
    } else if dispatch::is_endpoint_call(sysno) {
        lemma_endpoint_calls(s, cx, frame);
    } else if dispatch::is_notification_call(sysno) {
        lemma_notification_calls(s, cx, frame);
    } else if dispatch::is_builder_call(sysno) {
        lemma_builder_calls(s, cx, frame);
    } else {
        calls::lemma_plain_calls(
            s,
            cx,
            sysno,
            frame.x@[0],
            frame.x@[1],
            frame.x@[2],
            frame.x@[3],
            frame.x@[4],
        );
    }
}

/// Whatever interrupt comes in, the numbers of ready threads stay below the next one, and it
/// gives out two of them at most.
#[verifier::spinoff_prover]
pub proof fn law_interrupts_keep_numbers(s: MachineView, cx: Entry, raw: u32, frame: TrapFrame)
    requires
        frame.spsr_el1 % 16 == 0 ==> s.k.threads.runs(cx.cpu as int),
        numbered(s),
        s.k.sched.ready_sequence <= u64::MAX - 2,
    ensures
        numbered(s.irq(cx, raw, frame).0),
        s.irq(cx, raw, frame).0.k.sched.ready_sequence <= s.k.sched.ready_sequence + 2,
{
    let line = raw % 1024;
    let ended = s.with_ops(s.k.gic.eoir_ops(raw));
    if !s.k.gic.is_ready() || line >= 1020 {
    } else if line == crate::interrupt::gic::SGI_RESCHEDULE {
        assert(same_numbers(s, ended));
        lemma_look_again(ended, cx, frame);
    } else if line == crate::interrupt::gic::SGI_TLB_SHOOTDOWN {
        assert(same_numbers(s, s.irq(cx, raw, frame).0));
    } else if line == crate::interrupt::gic::SGI_TASK_STOP {
        assert(same_numbers(s, s.irq(cx, raw, frame).0));
    } else if s.k.timer.intid != 0 && s.k.timer.intid == line {
        let halted = s.disarm().with_ops(s.k.gic.eoir_ops(raw));
        assert(same_numbers(s, halted));
        if frame.spsr_el1 % 16 == 0 {
            lemma_yield(halted, cx, frame);
        }
    } else if let Some(i) = s.k.task.binding(line, 0) {
        let binding = s.k.task.irq_bindings@[i];
        let quiet = s.with_ops(s.k.gic.disable_ops(raw % 1024)).with_ops(s.k.gic.eoir_ops(raw));
        let t = quiet.with_task(quiet.k.task.with_awaiting(i, true));
        assert(same_numbers(s, t));
        lemma_signal(t, cx, binding.notification, binding.badge);
        stillness::lemma_signal(t, cx, binding.notification, binding.badge);
        let u = t.signal(cx, binding.notification, binding.badge).0;
        lemma_look_again(u, cx, frame);
        lemma_pace(s, u, u.look_again(cx, frame).0, 1, 1);
    } else {
        assert(same_numbers(s, ended));
    }
}

proof fn lemma_look_again(s: MachineView, cx: Entry, frame: TrapFrame)
    requires
        frame.spsr_el1 % 16 == 0 ==> s.k.threads.runs(cx.cpu as int),
    ensures
        pace(s, s.look_again(cx, frame).0, 1),
{
    if frame.spsr_el1 % 16 == 0 {
        lemma_preempt(s, cx, frame);
    } else {
        lemma_choice(s, cx);
    }
}

/// Stacks take no numbers, timers neither, and a processor that joins gives none out.
pub proof fn law_joining_keeps_numbers(
    s: MachineView,
    cx: Entry,
    n: int,
    root: u64,
    intid: u32,
    use_virtual: bool,
    frequency: u64,
)
    requires
        cx.cpu < 4,
    ensures
        pace(s, s.secondary_stacks(n).0, 0),
        pace(s, s.sched_init(cx, intid, use_virtual, frequency).0, 0),
        pace(s, s.secondary_entry(cx, root, intid, use_virtual, frequency).0, 0),
{
    lemma_stacks(s, n);
    assert(same_numbers(s, s.sched_init(cx, intid, use_virtual, frequency).0));
    let a = MachineView { k: Kernel { active_table: root, ..s.k }, ..s }.op(
        HwOp::SwitchTable { root, asid: 0 },
    ).with_ops(crate::interrupt::gic::Gic::cpu_interface_ops());
    let (b, timed) = a.sched_init(cx, intid, use_virtual, frequency);
    let c = MachineView {
        k: Kernel {
            smp: crate::arch::smp::Smp {
                online_mask: b.k.smp.online_mask | (1u64 << cx.cpu),
                ..b.k.smp
            },
            ..b.k
        },
        ..b
    }.op(HwOp::Sev);
    assert(same_numbers(s, b) && same_numbers(s, c));
    lemma_same(s, b);
    lemma_same(s, c);
    lemma_choice(c, cx);
    lemma_pace(s, c, c.wait_and_activate(cx).0, 0, 0);
}

proof fn lemma_stacks(s: MachineView, n: int)
    ensures
        same_numbers(s, s.secondary_stacks(n).0),
    decreases n,
{
    if n > 1 {
        lemma_stacks(s, n - 1);
    }
}

} // verus!
