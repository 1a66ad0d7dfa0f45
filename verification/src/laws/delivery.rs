//! A message that is sent through an endpoint is the message that is received there.
use crate::abi::{IpcMessage, ReplyHandle};
use crate::hw::HwOp;
use crate::laws::{scheduling, stillness};
use crate::machine::{Dispatch, Entry, MachineView};
use crate::object::ipc;
use crate::object::ipc::PendingSender;
use crate::object::thread::{ThreadState, ThreadTable};
use crate::syscall::dispatch::TrapFrame;
use vstd::prelude::*;

verus! {

/// `t` comes after `s`: what was asked of the hardware stays asked, and every thread keeps its
/// IPC buffer.
pub open spec fn later(s: MachineView, t: MachineView) -> bool {
    &&& s.ops.len() <= t.ops.len()
    &&& forall|i: int| 0 <= i < s.ops.len() ==> #[trigger] t.ops[i] == s.ops[i]
    &&& forall|i: int|
        0 <= i < 16 ==> (#[trigger] t.k.threads.slots@[i]).ipc_va == s.k.threads.slots@[i].ipc_va
}

/// On the way from `s` to `t` a message was put into the IPC buffer of thread `slot`.
pub open spec fn got(s: MachineView, t: MachineView, slot: int, message: IpcMessage) -> bool {
    exists|i: int|
        s.ops.len() <= i < t.ops.len() && #[trigger] t.ops[i] == (HwOp::WriteMessage {
            va: s.k.threads.slots@[slot].ipc_va,
            message,
        })
}

pub(crate) proof fn lemma_later(s: MachineView, t: MachineView, u: MachineView)
    requires
        later(s, t),
        later(t, u),
    ensures
        later(s, u),
{
    assert forall|i: int| 0 <= i < s.ops.len() implies #[trigger] u.ops[i] == s.ops[i] by {
        assert(t.ops[i] == s.ops[i]);
    }
    assert forall|i: int| 0 <= i < 16 implies (#[trigger] u.k.threads.slots@[i]).ipc_va
        == s.k.threads.slots@[i].ipc_va by {
        assert(t.k.threads.slots@[i].ipc_va == s.k.threads.slots@[i].ipc_va);
    }
}

pub(crate) proof fn lemma_ready_later(s: MachineView, cx: Entry, slot: int)
    requires
        0 <= slot < 16,
    ensures
        later(s, s.thread_ready(cx, slot)),
{
}

pub(crate) proof fn lemma_wake_later(s: MachineView, cx: Entry, slot: int, value: u64)
    ensures
        later(s, s.wake(cx, slot, value)),
        s.wake(cx, slot, value).k.task == s.k.task,
        s.wake(cx, slot, value).k.gic == s.k.gic,
        s.wake(cx, slot, value).k.threads.current == s.k.threads.current,
{
    if 0 <= slot < 16 && s.k.threads.slots@[slot].state == ThreadState::Blocked {
        let thread = s.k.threads.slots@[slot];
        lemma_ready_later(
            s.with_threads(
                s.k.threads.with(
                    slot,
                    crate::object::thread::Thread {
                        context: thread.context.with_result(value),
                        state: ThreadState::Ready,
                        running_cpu: crate::object::thread::NONE,
                        ..thread
                    },
                ),
            ),
            cx,
            slot,
        );
    }
}

proof fn lemma_announce_later(s: MachineView, cx: Entry, before: ThreadTable, k: int)
    requires
        0 <= k <= 16,
    ensures
        later(s, s.announce_priorities(cx, before, k)),
    decreases k,
{
    reveal(MachineView::announce_priorities);
    if k > 0 {
        lemma_announce_later(s, cx, before, k - 1);
        let t = s.announce_priorities(cx, before, k - 1);
        lemma_ready_later(t, cx, k - 1);
        assert(later(t, t.priority_changed(cx, k - 1)));
        lemma_later(s, t, s.announce_priorities(cx, before, k));
    }
}

pub(crate) proof fn lemma_recompute_later(s: MachineView, cx: Entry)
    requires
        stillness::replies_sound(s.k.ipc.replies),
    ensures
        later(s, s.recompute(cx)),
{
    let t = s.with_threads(ipc::inherited(s.k.threads, s.k.ipc.replies));
    stillness::lemma_inherited(s.k.threads, s.k.ipc.replies);
    assert forall|i: int| 0 <= i < 16 implies (#[trigger] t.k.threads.slots@[i]).ipc_va
        == s.k.threads.slots@[i].ipc_va by {
        assert(stillness::reranked_thread(s.k.threads.slots@[i], t.k.threads.slots@[i]));
    }
    assert(later(s, t));
    lemma_announce_later(t, cx, s.k.threads, 16);
    lemma_later(s, t, s.recompute(cx));
}

pub(crate) proof fn lemma_activate_later(s: MachineView, cx: Entry, slot: int)
    requires
        0 <= slot < 16,
    ensures
        later(s, s.activate(cx, slot).0),
        s.activate(cx, slot).0.k.ipc == s.k.ipc,
        s.activate(cx, slot).0.k.task == s.k.task,
{
}

pub(crate) proof fn lemma_choice_later(s: MachineView, cx: Entry)
    ensures
        later(s, s.wait_and_activate(cx).0),
        s.wait_and_activate(cx).0.k.ipc == s.k.ipc,
        s.wait_and_activate(cx).0.k.task == s.k.task,
{
    let t = s.searched(cx.cpu as int);
    assert(later(s, t));
    scheduling::lemma_next_in_range(s, cx.cpu as int);
    match s.next_thread(cx.cpu as int) {
        Some(slot) => {
            lemma_activate_later(t, cx, slot);
            lemma_later(s, t, t.activate(cx, slot).0);
        },
        None => {},
    }
}

pub(crate) proof fn lemma_block_later(s: MachineView, cx: Entry, frame: TrapFrame)
    requires
        s.k.threads.runs(cx.cpu as int),
    ensures
        later(s, s.block(cx, frame).0),
        s.block(cx, frame).0.k.ipc == s.k.ipc,
        s.block(cx, frame).0.k.task == s.k.task,
        s.block(cx, frame).2 is Ok,
{
    let t = s.charge_current(cx).leave(cx, frame, ThreadState::Blocked).charge_current(
        cx,
    ).disarm();
    assert(later(s, t));
    lemma_choice_later(t, cx);
    lemma_later(s, t, t.wait_and_activate(cx).0);
}

pub(crate) proof fn lemma_preempt_later(s: MachineView, cx: Entry, frame: TrapFrame)
    requires
        s.k.threads.runs(cx.cpu as int),
    ensures
        later(s, s.preempt_if_needed(cx, frame).0),
        s.preempt_if_needed(cx, frame).0.k.task == s.k.task,
{
    let t = s.searched(cx.cpu as int);
    assert(later(s, t));
    scheduling::lemma_next_in_range(s, cx.cpu as int);
    match s.next_thread(cx.cpu as int) {
        None => {},
        Some(next) => {
            let u = t.charge_current(cx);
            assert(later(s, u));
            let v = u.leave(cx, frame, ThreadState::Ready);
            assert(later(s, v));
            let slot = u.k.threads.current@[cx.cpu as int] as int;
            lemma_ready_later(v, cx, slot);
            lemma_later(s, v, v.thread_ready(cx, slot));
            lemma_activate_later(v.thread_ready(cx, slot), cx, next);
            lemma_later(s, v.thread_ready(cx, slot), v.thread_ready(cx, slot).activate(cx, next).0);
        },
    }
}

/// The message with the reply handle that its receiver finds in it.
pub open spec fn with_reply(message: IpcMessage, handle: u64) -> IpcMessage {
    IpcMessage { reply: ReplyHandle(handle), ..message }
}

/// Thread `receiver` got the message of `sender`, in full but for the reply handle. A call comes
/// with a handle under which the receiver finds the caller.
pub open spec fn received(s: MachineView, t: MachineView, receiver: int, sender: PendingSender)
    -> bool {
    exists|handle: u64|
        #![trigger with_reply(sender.message, handle)]
        {
            &&& got(s, t, receiver, with_reply(sender.message, handle))
            &&& if sender.is_call {
                match t.k.ipc.find_reply(s.k.task.owner(), receiver as u8, handle) {
                    Ok(slot) => t.k.ipc.replies@[slot].caller == sender.slot,
                    Err(_) => false,
                }
            } else {
                handle == 0
            }
        }
}

pub(crate) proof fn lemma_deliver(
    s: MachineView,
    cx: Entry,
    sender: PendingSender,
    receiver: int,
    endpoint: int,
)
    requires
        forall|i: int| 0 <= i < 16 ==> (#[trigger] s.k.ipc.replies@[i]).wf(),
        cx.cpu < 4,
        sender.slot < 16,
        0 <= receiver < 16,
        0 <= endpoint < 16,
        sender.is_call ==> s.k.ipc.free_reply(0) is Some,
    ensures
        ({
            let (t, outcome) = s.deliver(cx, sender, receiver, endpoint);
            &&& outcome is Ok
            &&& later(s, t)
            &&& received(s, t, receiver, sender)
            &&& t.k.threads.current == s.k.threads.current
        }),
{
    let (t, outcome) = s.deliver(cx, sender, receiver, endpoint);
    if sender.is_call {
        let (a, reply) = s.allocate_reply(cx, sender.slot, receiver as u8, endpoint as u8);
        crate::laws::messages::lemma_reply_leads_back(
            s,
            cx,
            sender.slot,
            receiver as u8,
            endpoint as u8,
        );
        let slot = s.k.ipc.free_reply(0)->0;
        let held = s.with_ipc(
            s.k.ipc.with_reply(
                slot,
                ipc::Reply {
                    owner: s.k.task.owner(),
                    generation: s.k.ipc.replies@[slot].generation,
                    caller: sender.slot,
                    server: receiver as u8,
                    endpoint: endpoint as u8,
                },
            ),
        );
        assert(later(s, held));
        lemma_recompute_later(held, cx);
        lemma_later(s, held, a);
        let message = with_reply(sender.message, reply->0);
        let w = a.write_message(receiver, message);
        assert(later(a, w));
        lemma_later(s, a, w);
        lemma_wake_later(w, cx, receiver, 0);
        lemma_later(s, w, t);
        assert(t.ops[a.ops.len() as int] == w.ops[a.ops.len() as int]);
        assert(got(s, t, receiver, message));
    } else {
        let a = s.wake(cx, sender.slot as int, 0);
        lemma_wake_later(s, cx, sender.slot as int, 0);
        let message = with_reply(sender.message, 0);
        let w = a.write_message(receiver, message);
        assert(later(a, w));
        lemma_later(s, a, w);
        lemma_wake_later(w, cx, receiver, 0);
        lemma_later(s, w, t);
        assert(t.ops[a.ops.len() as int] == w.ops[a.ops.len() as int]);
        assert(got(s, t, receiver, message));
    }
}

/// A message that is sent where a thread waits to receive reaches that thread at once, as it was
/// sent. A call comes with a handle that leads back to the caller, if there is a free reply right.
pub proof fn law_message_meets_receiver(
    s: MachineView,
    cx: Entry,
    handle: u64,
    is_call: bool,
    frame: TrapFrame,
)
    requires
        s.wf(),
        s.k.threads.runs(cx.cpu as int),
        s.k.ipc.find_endpoint(s.k.task.owner(), handle) is Ok,
        s.k.ipc.endpoints@[s.k.ipc.find_endpoint(
            s.k.task.owner(),
            handle,
        )->Ok_0].receivers.count > 0,
        is_call ==> s.k.ipc.free_reply(0) is Some,
    ensures
        ({
            let slot = s.k.ipc.find_endpoint(s.k.task.owner(), handle)->Ok_0;
            let receiver = s.k.ipc.endpoints@[slot].receivers.slots@[0];
            let sender = PendingSender { slot: s.current(cx), is_call, message: cx.message };
            let (t, _, outcome) = s.send(cx, handle, is_call, frame);
            &&& outcome is Ok
            &&& received(s, t, receiver as int, sender)
        }),
{
    let slot = s.k.ipc.find_endpoint(s.k.task.owner(), handle)->Ok_0;
    let endpoint = s.k.ipc.endpoints@[slot];
    assert(endpoint.wf());
    let receiver = endpoint.receivers.slots@[0];
    assert(receiver < 16);
    let sender = PendingSender { slot: s.current(cx), is_call, message: cx.message };
    let p = s.with_endpoint(
        slot,
        ipc::Endpoint { receivers: endpoint.receivers.popped(), ..endpoint },
    );
    lemma_free_reply_same(s.k.ipc, p.k.ipc, 0);
    lemma_deliver(p, cx, sender, receiver as int, slot);
    let (d, _) = p.deliver(cx, sender, receiver as int, slot);
    let (t, _, outcome) = s.send(cx, handle, is_call, frame);
    if is_call {
        lemma_block_later(d, cx, frame.with_result(0));
    } else {
        lemma_preempt_later(d, cx, frame.with_result(0));
    }
    assert(later(d, t));
    let found = choose|handle: u64|
        #![trigger with_reply(sender.message, handle)]
        {
            &&& got(p, d, receiver as int, with_reply(sender.message, handle))
            &&& if is_call {
                match d.k.ipc.find_reply(s.k.task.owner(), receiver, handle) {
                    Ok(slot) => d.k.ipc.replies@[slot].caller == sender.slot,
                    Err(_) => false,
                }
            } else {
                handle == 0
            }
        };
    let message = with_reply(sender.message, found);
    let i = choose|i: int|
        p.ops.len() <= i < d.ops.len() && #[trigger] d.ops[i] == (HwOp::WriteMessage {
            va: p.k.threads.slots@[receiver as int].ipc_va,
            message,
        });
    assert(t.ops[i] == d.ops[i]);
    assert(got(s, t, receiver as int, message));
}

/// A message that is sent where nobody waits is kept, and the next thread that receives there
/// gets it, as it was sent. A call comes with a handle that leads back to the caller, if there is
/// a free reply right.
pub proof fn law_message_waits_for_receiver(
    s: MachineView,
    cx: Entry,
    handle: u64,
    is_call: bool,
    frame: TrapFrame,
    cx2: Entry,
    frame2: TrapFrame,
)
    requires
        s.wf(),
        s.k.threads.runs(cx.cpu as int),
        s.k.ipc.find_endpoint(s.k.task.owner(), handle) is Ok,
        s.k.ipc.endpoints@[s.k.ipc.find_endpoint(
            s.k.task.owner(),
            handle,
        )->Ok_0].receivers.count == 0,
        s.k.ipc.endpoints@[s.k.ipc.find_endpoint(
            s.k.task.owner(),
            handle,
        )->Ok_0].sender_count == 0,
        s.send(cx, handle, is_call, frame).0.k.threads.runs(cx2.cpu as int),
        is_call ==> s.k.ipc.free_reply(0) is Some,
    ensures
        ({
            let sender = PendingSender { slot: s.current(cx), is_call, message: cx.message };
            let (t, _, sent) = s.send(cx, handle, is_call, frame);
            let (u, result, outcome) = t.recv(cx2, handle, frame2);
            &&& sent is Ok
            &&& outcome == Ok::<Dispatch, u64>(Dispatch::Return)
            &&& result == frame2.with_result(0)
            &&& received(t, u, t.current(cx2) as int, sender)
        }),
{
    let slot = s.k.ipc.find_endpoint(s.k.task.owner(), handle)->Ok_0;
    let endpoint = s.k.ipc.endpoints@[slot];
    let sender = PendingSender { slot: s.current(cx), is_call, message: cx.message };
    let p = s.with_endpoint(slot, endpoint.with_sender(sender));
    lemma_block_later(p, cx, frame);
    let (t, _, _) = s.send(cx, handle, is_call, frame);
    assert(t.k.ipc == p.k.ipc);
    assert(t.k.ipc.endpoints@[slot].sender_count == 1);
    assert(t.k.ipc.endpoints@[slot].senders@[0] == sender);
    assert(t.k.ipc.find_endpoint(t.k.task.owner(), handle) == Ok::<int, u64>(slot));
    assert(t.k.ipc.free_reply(0) == s.k.ipc.free_reply(0)) by {
        lemma_free_reply_same(s.k.ipc, t.k.ipc, 0);
    }
    let q = t.with_endpoint(slot, t.k.ipc.endpoints@[slot].without_first_sender());
    lemma_free_reply_same(t.k.ipc, q.k.ipc, 0);
    assert(q.k.ipc.replies == s.k.ipc.replies);
    lemma_deliver(q, cx2, sender, t.current(cx2) as int, slot);
}

pub(crate) proof fn lemma_free_reply_same(a: ipc::Ipc, b: ipc::Ipc, from: int)
    requires
        a.replies == b.replies,
    ensures
        a.free_reply(from) == b.free_reply(from),
    decreases 16 - from,
{
    if 0 <= from < 16 {
        lemma_free_reply_same(a, b, from + 1);
    }
}

/// An answer reaches the caller as it was given.
pub proof fn law_answer_reaches_caller(s: MachineView, cx: Entry, handle: u64)
    requires
        s.wf(),
        cx.cpu < 4,
        s.k.task.owner() != 0,
        s.k.ipc.find_reply(s.k.task.owner(), s.current(cx), handle) is Ok,
    ensures
        ({
            let slot = s.k.ipc.find_reply(s.k.task.owner(), s.current(cx), handle)->Ok_0;
            got(s, s.answer(cx, handle).0, s.k.ipc.replies@[slot].caller as int, cx.message)
        }),
{
    let slot = s.k.ipc.find_reply(s.k.task.owner(), s.current(cx), handle)->Ok_0;
    let reply = s.k.ipc.replies@[slot];
    assert(reply.wf());
    crate::handle::law_generation_moves(reply.generation);
    let caller = reply.caller as int;
    let w = s.write_message(caller, cx.message);
    lemma_wake_later(w, cx, caller, 0);
    let v = w.wake(cx, caller, 0);
    let u = v.with_ipc(
        v.k.ipc.with_reply(
            slot,
            ipc::Reply::unused(crate::handle::generation_after(reply.generation)),
        ),
    );
    assert forall|i: int| 0 <= i < 16 implies (#[trigger] u.k.ipc.replies@[i]).wf() by {
        assert(s.k.ipc.replies@[i].wf());
    }
    lemma_recompute_later(u, cx);
    let t = u.recompute(cx);
    let i = s.ops.len() as int;
    assert(v.ops[i] == w.ops[i]);
    assert(t.ops[i] == u.ops[i]);
}

} // verus!
