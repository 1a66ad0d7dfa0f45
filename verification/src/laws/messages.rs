//! Messages, replies and badges: what one call leaves behind and a later one finds.
use crate::laws::stillness;
use crate::machine::{Dispatch, Entry, MachineView};
use crate::object::ipc::{self, Reply};
use crate::object::thread::{Thread, ThreadState, ThreadTable};
use crate::syscall::dispatch::TrapFrame;
use vstd::prelude::*;

verus! {

/// An endpoint that was created is found by its handle, and nobody waits there.
pub proof fn law_created_endpoint_is_found(s: MachineView)
    requires
        s.wf(),
        s.k.ipc.free_endpoint(0) is Some,
    ensures
        ({
            let (t, handle) = s.endpoint_create();
            match t.k.ipc.find_endpoint(s.k.task.owner(), handle) {
                Ok(slot) => {
                    &&& t.k.ipc.endpoints@[slot].sender_count == 0
                    &&& t.k.ipc.endpoints@[slot].receivers.count == 0
                },
                Err(_) => false,
            }
        }),
{
    let slot = lemma_free_endpoint(s, 0);
    let generation = s.k.ipc.endpoints@[slot].generation;
    assert(s.k.ipc.endpoints@[slot].wf());
    crate::handle::law_handle_round_trip(slot, generation, 16);
}

proof fn lemma_free_endpoint(s: MachineView, from: int) -> (slot: int)
    requires
        0 <= from,
        s.k.ipc.free_endpoint(from) is Some,
    ensures
        s.k.ipc.free_endpoint(from) == Some(slot),
        from <= slot < 16,
    decreases 16 - from,
{
    if from < 16 && s.k.ipc.endpoints@[from].owner != 0 {
        lemma_free_endpoint(s, from + 1)
    } else {
        from
    }
}

/// An endpoint that was destroyed is not found any more.
pub proof fn law_destroyed_endpoint_is_stale(s: MachineView, handle: u64)
    requires
        s.wf(),
        s.endpoint_destroy(handle).1 == 0,
    ensures
        s.endpoint_destroy(handle).0.k.ipc.find_endpoint(s.k.task.owner(), handle) is Err,
{
    match s.k.ipc.find_endpoint(s.k.task.owner(), handle) {
        Ok(slot) => {
            assert(s.k.ipc.endpoints@[slot].wf());
            crate::handle::law_generation_moves(s.k.ipc.endpoints@[slot].generation);
        },
        Err(_) => {
            assert(s.k.ipc.find_endpoint(s.k.task.owner(), handle) is Err);
        },
    }
}

/// A notification that was destroyed is not found any more.
pub proof fn law_destroyed_notification_is_stale(s: MachineView, handle: u64)
    requires
        s.wf(),
        s.notification_destroy(handle).1 == 0,
    ensures
        s.notification_destroy(handle).0.k.ipc.find_notification(s.k.task.owner(), handle) is Err,
{
    match s.k.ipc.find_notification(s.k.task.owner(), handle) {
        Ok(slot) => {
            assert(s.k.ipc.notifications@[slot].wf());
            crate::handle::law_generation_moves(s.k.ipc.notifications@[slot].generation);
        },
        Err(_) => {},
    }
}

/// Badges add up while nobody waits, and one poll takes them all. A second poll finds none.
pub proof fn law_badges_add_up(s: MachineView, cx: Entry, handle: u64, a: u64, b: u64)
    requires
        a != 0,
        b != 0,
        s.k.ipc.find_notification(s.k.task.owner(), handle) is Ok,
        s.k.ipc.notifications@[s.k.ipc.find_notification(
            s.k.task.owner(),
            handle,
        )->Ok_0].waiters.count == 0,
    ensures
        ({
            let slot = s.k.ipc.find_notification(s.k.task.owner(), handle)->Ok_0;
            let pending = s.k.ipc.notifications@[slot].pending;
            let t = s.signal(cx, handle, a).0.signal(cx, handle, b).0;
            let (u, badges) = t.notification_poll(handle);
            &&& badges == (pending | a) | b
            &&& u.notification_poll(handle).1 == crate::abi::SYS_ERR_WOULD_BLOCK
        }),
{
    let slot = s.k.ipc.find_notification(s.k.task.owner(), handle)->Ok_0;
    let pending = s.k.ipc.notifications@[slot].pending;
    assert((pending | a) | b != 0) by (bit_vector)
        requires
            a != 0,
    ;
    assert(0 <= slot < 32);
}

/// A waiter is woken with every badge that is pending, the new one among them, and none is left.
pub proof fn law_waiter_takes_all_badges(s: MachineView, cx: Entry, handle: u64, badge: u64)
    requires
        s.wf(),
        badge != 0,
        s.k.ipc.find_notification(s.k.task.owner(), handle) is Ok,
        s.k.ipc.notifications@[s.k.ipc.find_notification(
            s.k.task.owner(),
            handle,
        )->Ok_0].waiters.count > 0,
    ensures
        ({
            let slot = s.k.ipc.find_notification(s.k.task.owner(), handle)->Ok_0;
            let notification = s.k.ipc.notifications@[slot];
            let waiter = notification.waiters.slots@[0] as int;
            let t = s.signal(cx, handle, badge).0;
            &&& t.k.ipc.notifications@[slot].pending == 0
            &&& s.k.threads.slots@[waiter].state == ThreadState::Blocked ==> {
                &&& t.k.threads.slots@[waiter].state == ThreadState::Ready
                &&& t.k.threads.slots@[waiter].context.x@[0] == notification.pending | badge
            }
        }),
{
    let slot = s.k.ipc.find_notification(s.k.task.owner(), handle)->Ok_0;
    let notification = s.k.ipc.notifications@[slot];
    assert(notification.wf());
    let waiter = notification.waiters.slots@[0] as int;
    let pending = notification.pending | badge;
    let t = s.with_notification(
        slot,
        crate::object::ipc::Notification {
            pending: 0,
            waiters: notification.waiters.popped(),
            ..notification
        },
    );
    assert(0 <= waiter < 16);
    if s.k.threads.slots@[waiter].state == ThreadState::Blocked {
        lemma_woken(t, cx, waiter, pending);
    }
}

/// A blocked thread that is woken is ready and finds the value in its result register.
proof fn lemma_woken(s: MachineView, cx: Entry, slot: int, value: u64)
    requires
        0 <= slot < 16,
        s.k.threads.slots@[slot].state == ThreadState::Blocked,
    ensures
        s.wake(cx, slot, value).k.threads.slots@[slot].state == ThreadState::Ready,
        s.wake(cx, slot, value).k.threads.slots@[slot].context.x@[0] == value,
        s.wake(cx, slot, value).k.ipc == s.k.ipc,
        s.wake(cx, slot, value).k.task == s.k.task,
{
}

/// The reply right that a call leaves is found under its handle by the server alone, and leads
/// back to the caller.
pub proof fn law_reply_leads_back(
    s: MachineView,
    cx: Entry,
    caller: u8,
    server: u8,
    endpoint: u8,
)
    requires
        s.wf(),
        cx.cpu < 4,
        caller < 16,
        server < 16,
        endpoint < 16,
        s.k.ipc.free_reply(0) is Some,
    ensures
        ({
            let (t, handle) = s.allocate_reply(cx, caller, server, endpoint);
            &&& handle is Some
            &&& match t.k.ipc.find_reply(s.k.task.owner(), server, handle->0) {
                Ok(slot) => t.k.ipc.replies@[slot].caller == caller,
                Err(_) => false,
            }
            &&& forall|other: u8|
                other != server ==> (#[trigger] t.k.ipc.find_reply(
                    s.k.task.owner(),
                    other,
                    handle->0,
                )) is Err
        }),
{
    lemma_reply_leads_back(s, cx, caller, server, endpoint);
}

pub(crate) proof fn lemma_reply_leads_back(
    s: MachineView,
    cx: Entry,
    caller: u8,
    server: u8,
    endpoint: u8,
)
    requires
        forall|i: int| 0 <= i < 16 ==> (#[trigger] s.k.ipc.replies@[i]).wf(),
        cx.cpu < 4,
        caller < 16,
        server < 16,
        endpoint < 16,
        s.k.ipc.free_reply(0) is Some,
    ensures
        ({
            let (t, handle) = s.allocate_reply(cx, caller, server, endpoint);
            &&& handle is Some
            &&& 0 <= s.k.ipc.free_reply(0)->0 < 16
            &&& t.k.task == s.k.task
            &&& t.k.threads.current == s.k.threads.current
            &&& match t.k.ipc.find_reply(s.k.task.owner(), server, handle->0) {
                Ok(slot) => t.k.ipc.replies@[slot].caller == caller,
                Err(_) => false,
            }
            &&& forall|other: u8|
                other != server ==> (#[trigger] t.k.ipc.find_reply(
                    s.k.task.owner(),
                    other,
                    handle->0,
                )) is Err
        }),
{
    let slot = lemma_free_reply(s, 0);
    let generation = s.k.ipc.replies@[slot].generation;
    assert(s.k.ipc.replies@[slot].wf());
    crate::handle::law_handle_round_trip(slot, generation, 16);
    let reply = Reply { owner: s.k.task.owner(), generation, caller, server, endpoint };
    let t = s.with_ipc(s.k.ipc.with_reply(slot, reply));
    assert forall|i: int| 0 <= i < 16 implies (#[trigger] t.k.ipc.replies@[i]).wf() by {
        assert(s.k.ipc.replies@[i].wf());
    }
    stillness::lemma_recompute(t, cx);
}

pub(crate) proof fn lemma_free_reply(s: MachineView, from: int) -> (slot: int)
    requires
        0 <= from,
        s.k.ipc.free_reply(from) is Some,
    ensures
        s.k.ipc.free_reply(from) == Some(slot),
        from <= slot < 16,
    decreases 16 - from,
{
    if from < 16 && s.k.ipc.replies@[from].owner != 0 {
        lemma_free_reply(s, from + 1)
    } else {
        from
    }
}

pub(crate) proof fn lemma_free_reply_is_unused(s: MachineView, from: int)
    requires
        0 <= from,
        s.k.ipc.free_reply(from) is Some,
    ensures
        s.k.ipc.replies@[s.k.ipc.free_reply(from)->0].owner == 0,
    decreases 16 - from,
{
    if from < 16 && s.k.ipc.replies@[from].owner != 0 {
        lemma_free_reply_is_unused(s, from + 1);
    }
}

/// An answer goes to the caller, who wakes with zero, and can be given only once.
pub proof fn law_answered_once(s: MachineView, cx: Entry, handle: u64)
    requires
        s.wf(),
        cx.cpu < 4,
        s.k.ipc.find_reply(s.k.task.owner(), s.current(cx), handle) is Ok,
        s.k.task.owner() != 0,
    ensures
        ({
            let slot = s.k.ipc.find_reply(s.k.task.owner(), s.current(cx), handle)->Ok_0;
            let caller = s.k.ipc.replies@[slot].caller as int;
            let (t, error) = s.answer(cx, handle);
            &&& error is None
            &&& s.k.threads.slots@[caller].state == ThreadState::Blocked
                ==> t.k.threads.slots@[caller].state == ThreadState::Ready
            &&& t.answer(cx, handle) == (t, Some(crate::abi::SYS_ERR_NOT_FOUND))
        }),
{
    let slot = s.k.ipc.find_reply(s.k.task.owner(), s.current(cx), handle)->Ok_0;
    let reply = s.k.ipc.replies@[slot];
    assert(reply.wf());
    crate::handle::law_generation_moves(reply.generation);
    let caller = reply.caller as int;
    assert(0 <= caller < 16);
    let written = s.write_message(caller, cx.message);
    stillness::lemma_wake(written, cx, caller, 0);
    if s.k.threads.slots@[caller].state == ThreadState::Blocked {
        lemma_woken(written, cx, caller, 0);
    }
    let t = written.wake(cx, caller, 0);
    let u = t.with_ipc(
        t.k.ipc.with_reply(
            slot,
            Reply::unused(crate::handle::generation_after(reply.generation)),
        ),
    );
    assert forall|i: int| 0 <= i < 16 implies (#[trigger] u.k.ipc.replies@[i]).wf() by {
        assert(s.k.ipc.replies@[i].wf());
    }
    stillness::lemma_recompute(u, cx);
    let v = u.recompute(cx);
    assert(stillness::reranked_thread(
        u.k.threads.slots@[caller],
        v.k.threads.slots@[caller],
    ));
}

/// Answering and receiving in one call changes nothing unless both handles are good.
pub proof fn law_reply_recv_checks_first(
    s: MachineView,
    cx: Entry,
    endpoint: u64,
    reply: u64,
    frame: TrapFrame,
)
    requires
        s.k.ipc.find_endpoint(s.k.task.owner(), endpoint) is Err || s.k.ipc.find_reply(
            s.k.task.owner(),
            s.current(cx),
            reply,
        ) is Err,
    ensures
        s.reply_recv(cx, endpoint, reply, frame).0 == s,
        s.reply_recv(cx, endpoint, reply, frame).1 == frame,
        s.reply_recv(cx, endpoint, reply, frame).2 is Err,
{
}

/// The unanswered call `reply` is served at least as urgently as its caller is.
pub open spec fn served(threads: ThreadTable, reply: Reply) -> bool {
    reply.owner != 0 ==> threads.slots@[reply.caller as int].effective_priority
        <= threads.slots@[reply.server as int].effective_priority
}

/// Where thread `caller` is at least as urgent as `p`, so is its server.
pub open spec fn closed_at(threads: ThreadTable, replies: [Reply; 16], p: int) -> bool {
    forall|i: int|
        0 <= i < 16 && (#[trigger] replies@[i]).owner != 0
            && threads.slots@[replies@[i].caller as int].effective_priority >= p
            ==> threads.slots@[replies@[i].server as int].effective_priority >= p
}

/// The threads that are at least as urgent as `p`.
pub open spec fn urgent(threads: ThreadTable, p: int) -> Set<int> {
    Set::new(|i: int| 0 <= i < 16 && threads.slots@[i].effective_priority >= p)
}

/// Reply rights name threads.
pub open spec fn named(replies: [Reply; 16]) -> bool {
    forall|i: int|
        0 <= i < 16 && (#[trigger] replies@[i]).owner != 0 ==> replies@[i].caller < 16
            && replies@[i].server < 16
}

/// A pass lowers no priority, and lifts each server that it comes by to where the caller was.
proof fn lemma_pass(threads: ThreadTable, replies: [Reply; 16], k: int)
    requires
        named(replies),
        0 <= k <= 16,
    ensures
        ({
            let after = ipc::inherit_pass(threads, replies, k);
            &&& forall|i: int|
                0 <= i < 16 ==> (#[trigger] after.slots@[i]).effective_priority
                    >= threads.slots@[i].effective_priority
            &&& forall|j: int|
                0 <= j < k && (#[trigger] replies@[j]).owner != 0
                    ==> after.slots@[replies@[j].server as int].effective_priority
                    >= threads.slots@[replies@[j].caller as int].effective_priority
        }),
    decreases k,
{
    if k > 0 {
        lemma_pass(threads, replies, k - 1);
        let before = ipc::inherit_pass(threads, replies, k - 1);
        let after = ipc::inherit_pass(threads, replies, k);
        let reply = replies@[k - 1];
        assert forall|i: int| 0 <= i < 16 implies (#[trigger] after.slots@[i]).effective_priority
            >= before.slots@[i].effective_priority by {}
        assert forall|j: int| 0 <= j < k && (#[trigger] replies@[j]).owner != 0 implies
            after.slots@[replies@[j].server as int].effective_priority
            >= threads.slots@[replies@[j].caller as int].effective_priority by {
            if j == k - 1 {
                let caller = reply.caller as int;
                assert(before.slots@[caller].effective_priority
                    >= threads.slots@[caller].effective_priority);
            } else {
                let server = replies@[j].server as int;
                assert(after.slots@[server].effective_priority
                    >= before.slots@[server].effective_priority);
            }
        }
    }
}

/// A pass over a closed set of urgent threads adds none to it.
proof fn lemma_closed_pass(threads: ThreadTable, replies: [Reply; 16], p: int, k: int)
    requires
        named(replies),
        closed_at(threads, replies, p),
        0 <= k <= 16,
    ensures
        ({
            let after = ipc::inherit_pass(threads, replies, k);
            forall|i: int|
                0 <= i < 16 ==> ((#[trigger] after.slots@[i]).effective_priority >= p) == (
                threads.slots@[i].effective_priority >= p)
        }),
    decreases k,
{
    if k > 0 {
        lemma_closed_pass(threads, replies, p, k - 1);
        let before = ipc::inherit_pass(threads, replies, k - 1);
        let after = ipc::inherit_pass(threads, replies, k);
        let reply = replies@[k - 1];
        assert forall|i: int| 0 <= i < 16 implies ((
        #[trigger] after.slots@[i]).effective_priority >= p) == (
        threads.slots@[i].effective_priority >= p) by {
            assert((before.slots@[i].effective_priority >= p) == (
            threads.slots@[i].effective_priority >= p));
            if reply.owner != 0 && i == reply.server {
                let caller = reply.caller as int;
                assert((before.slots@[caller].effective_priority >= p) == (
                threads.slots@[caller].effective_priority >= p));
            }
        }
    }
}

/// A pass either adds a thread to the urgent ones or leaves a closed set.
proof fn lemma_grows(threads: ThreadTable, replies: [Reply; 16], p: int)
    requires
        named(replies),
    ensures
        ({
            let after = ipc::inherit_pass(threads, replies, 16);
            &&& urgent(threads, p).subset_of(urgent(after, p))
            &&& urgent(after, p) == urgent(threads, p) ==> closed_at(after, replies, p)
        }),
{
    let after = ipc::inherit_pass(threads, replies, 16);
    lemma_pass(threads, replies, 16);
    assert forall|i: int| urgent(threads, p).contains(i) implies urgent(after, p).contains(i) by {
        assert(after.slots@[i].effective_priority >= threads.slots@[i].effective_priority);
    }
    if urgent(after, p) == urgent(threads, p) {
        assert forall|i: int|
            0 <= i < 16 && (#[trigger] replies@[i]).owner != 0
                && after.slots@[replies@[i].caller as int].effective_priority >= p implies
            after.slots@[replies@[i].server as int].effective_priority >= p by {
            let caller = replies@[i].caller as int;
            assert(urgent(after, p).contains(caller));
            assert(urgent(threads, p).contains(caller));
        }
    }
}

proof fn lemma_slots_finite(threads: ThreadTable, p: int)
    ensures
        urgent(threads, p).finite(),
        urgent(threads, p).len() <= 16,
        urgent(threads, p).len() == 16 ==> forall|i: int|
            0 <= i < 16 ==> #[trigger] urgent(threads, p).contains(i),
{
    let all = vstd::set_lib::set_int_range(0, 16);
    vstd::set_lib::lemma_int_range(0, 16);
    let some = urgent(threads, p);
    assert(some.subset_of(all));
    vstd::set_lib::lemma_len_subset(some, all);
    if some.len() == 16 {
        vstd::set_lib::lemma_subset_equality(some, all);
    }
}

/// After `16 - pass` more passes the urgent threads are closed, whatever the priority.
proof fn lemma_all_closed(threads: ThreadTable, replies: [Reply; 16], p: int, pass: int)
    requires
        named(replies),
        0 <= pass <= 16,
        closed_at(threads, replies, p) || urgent(threads, p).len() >= pass,
    ensures
        closed_at(ipc::inherit_all(threads, replies, pass), replies, p),
    decreases 16 - pass,
{
    lemma_slots_finite(threads, p);
    if pass >= 16 {
        if !closed_at(threads, replies, p) {
            assert forall|i: int|
                0 <= i < 16 && (#[trigger] replies@[i]).owner != 0
                    && threads.slots@[replies@[i].caller as int].effective_priority >= p implies
                threads.slots@[replies@[i].server as int].effective_priority >= p by {
                assert(urgent(threads, p).contains(replies@[i].server as int));
            }
        }
    } else {
        let next = ipc::inherit_pass(threads, replies, 16);
        lemma_grows(threads, replies, p);
        lemma_slots_finite(next, p);
        if next == threads {
            assert(closed_at(threads, replies, p));
        } else {
            if closed_at(threads, replies, p) {
                lemma_closed_pass(threads, replies, p, 16);
                assert(urgent(next, p) =~= urgent(threads, p)) by {
                    assert forall|i: int| urgent(next, p).contains(i) == urgent(
                        threads,
                        p,
                    ).contains(i) by {
                        if 0 <= i < 16 {
                            assert((next.slots@[i].effective_priority >= p) == (
                            threads.slots@[i].effective_priority >= p));
                        }
                    }
                }
            } else if urgent(next, p) != urgent(threads, p) {
                lemma_bigger(urgent(threads, p), urgent(next, p));
            }
            lemma_all_closed(next, replies, p, pass + 1);
        }
    }
}

proof fn lemma_bigger(a: Set<int>, b: Set<int>)
    requires
        b.finite(),
        a.subset_of(b),
        a != b,
    ensures
        a.len() + 1 <= b.len(),
{
    vstd::set_lib::lemma_len_subset(a, b);
    if a.len() == b.len() {
        vstd::set_lib::lemma_subset_equality(a, b);
    }
}

/// A server is at least as urgent as every caller that waits for its answer, and so on along
/// chains of calls, once priorities are computed anew.
pub proof fn law_servers_inherit(threads: ThreadTable, replies: [Reply; 16])
    requires
        named(replies),
    ensures
        forall|i: int|
            0 <= i < 16 ==> served(ipc::inherited(threads, replies), #[trigger] replies@[i]),
{
    let start = ThreadTable {
        slots: crate::util::mapped(threads.slots, ipc::uninherited(), 16),
        ..threads
    };
    let last = ipc::inherited(threads, replies);
    assert forall|i: int| 0 <= i < 16 implies served(last, #[trigger] replies@[i]) by {
        let p = last.slots@[replies@[i].caller as int].effective_priority as int;
        lemma_slots_finite(start, p);
        lemma_all_closed(start, replies, p, 0);
    }
}

/// A thread that answers no call has its own priority.
pub proof fn law_without_callers_own_priority(
    threads: ThreadTable,
    replies: [Reply; 16],
    slot: int,
)
    requires
        named(replies),
        0 <= slot < 16,
        forall|i: int|
            0 <= i < 16 && (#[trigger] replies@[i]).owner != 0 ==> replies@[i].server != slot,
    ensures
        ipc::inherited(threads, replies).slots@[slot].effective_priority
            == threads.slots@[slot].base_priority,
{
    let f = ipc::uninherited();
    crate::util::lemma_mapped(threads.slots, f, 16);
    let start = ThreadTable { slots: crate::util::mapped(threads.slots, f, 16), ..threads };
    assert(start.slots@[slot] == f(threads.slots@[slot]));
    lemma_untouched_all(start, replies, slot, 0);
}

proof fn lemma_untouched_pass(threads: ThreadTable, replies: [Reply; 16], slot: int, k: int)
    requires
        named(replies),
        0 <= slot < 16,
        0 <= k <= 16,
        forall|i: int|
            0 <= i < 16 && (#[trigger] replies@[i]).owner != 0 ==> replies@[i].server != slot,
    ensures
        ipc::inherit_pass(threads, replies, k).slots@[slot] == threads.slots@[slot],
    decreases k,
{
    if k > 0 {
        lemma_untouched_pass(threads, replies, slot, k - 1);
    }
}

proof fn lemma_untouched_all(threads: ThreadTable, replies: [Reply; 16], slot: int, pass: int)
    requires
        named(replies),
        0 <= slot < 16,
        0 <= pass,
        forall|i: int|
            0 <= i < 16 && (#[trigger] replies@[i]).owner != 0 ==> replies@[i].server != slot,
    ensures
        ipc::inherit_all(threads, replies, pass).slots@[slot] == threads.slots@[slot],
    decreases 16 - pass,
{
    if pass < 16 {
        lemma_untouched_pass(threads, replies, slot, 16);
        let next = ipc::inherit_pass(threads, replies, 16);
        if next != threads {
            lemma_untouched_all(next, replies, slot, pass + 1);
        }
    }
}

/// The unanswered call `i` is served by `server`.
pub open spec fn serves(replies: [Reply; 16], i: int, server: int) -> bool {
    replies@[i].owner != 0 && replies@[i].server == server
}

/// Thread `caller` is `server`, or waits for it along at most `steps` unanswered calls.
pub open spec fn reaches(replies: [Reply; 16], caller: int, server: int, steps: nat) -> bool
    decreases steps,
{
    caller == server || steps > 0 && exists|i: int|
        0 <= i < 16 && #[trigger] serves(replies, i, server) && reaches(
            replies,
            caller,
            replies@[i].caller as int,
            (steps - 1) as nat,
        )
}

/// The priority of thread `slot` is that of a thread that waits for it, or its own.
spec fn supported(threads: ThreadTable, replies: [Reply; 16], slot: int) -> bool {
    exists|caller: int, steps: nat|
        0 <= caller < 16 && #[trigger] reaches(replies, caller, slot, steps)
            && threads.slots@[caller].base_priority == threads.slots@[slot].effective_priority
}

/// The tables differ in effective priorities only, and none of them was lowered.
spec fn lifted(a: ThreadTable, b: ThreadTable) -> bool {
    &&& b == (ThreadTable { slots: b.slots, ..a })
    &&& forall|i: int|
        0 <= i < 16 ==> (#[trigger] b.slots@[i]).effective_priority
            >= a.slots@[i].effective_priority && b.slots@[i] == (Thread {
            effective_priority: b.slots@[i].effective_priority,
            ..a.slots@[i]
        })
}

proof fn lemma_inherit_supported(threads: ThreadTable, replies: [Reply; 16], k: int)
    requires
        named(replies),
        0 <= k < 16,
        forall|i: int| 0 <= i < 16 ==> #[trigger] supported(threads, replies, i),
    ensures
        lifted(threads, ipc::inherit(threads, replies@[k])),
        forall|i: int|
            0 <= i < 16 ==> #[trigger] supported(
                ipc::inherit(threads, replies@[k]),
                replies,
                i,
            ),
{
    let reply = replies@[k];
    let after = ipc::inherit(threads, reply);
    assert forall|i: int| 0 <= i < 16 implies #[trigger] supported(after, replies, i) by {
        assert(supported(threads, replies, i));
        if reply.owner != 0 && i == reply.server && after != threads {
            assert(supported(threads, replies, reply.caller as int));
            let (caller, steps) = choose|caller: int, steps: nat|
                0 <= caller < 16 && #[trigger] reaches(
                    replies,
                    caller,
                    reply.caller as int,
                    steps,
                ) && threads.slots@[caller].base_priority
                    == threads.slots@[reply.caller as int].effective_priority;
            assert(serves(replies, k, i));
            assert(reaches(replies, caller, i, steps + 1));
            assert(after.slots@[caller].base_priority == threads.slots@[caller].base_priority);
        } else {
            let (caller, steps) = choose|caller: int, steps: nat|
                0 <= caller < 16 && #[trigger] reaches(replies, caller, i, steps)
                    && threads.slots@[caller].base_priority
                    == threads.slots@[i].effective_priority;
            assert(after.slots@[caller].base_priority == threads.slots@[caller].base_priority);
        }
    }
}

proof fn lemma_pass_supported(threads: ThreadTable, replies: [Reply; 16], k: int)
    requires
        named(replies),
        0 <= k <= 16,
        forall|i: int| 0 <= i < 16 ==> #[trigger] supported(threads, replies, i),
    ensures
        lifted(threads, ipc::inherit_pass(threads, replies, k)),
        forall|i: int|
            0 <= i < 16 ==> #[trigger] supported(
                ipc::inherit_pass(threads, replies, k),
                replies,
                i,
            ),
    decreases k,
{
    if k > 0 {
        lemma_pass_supported(threads, replies, k - 1);
        let before = ipc::inherit_pass(threads, replies, k - 1);
        lemma_inherit_supported(before, replies, k - 1);
        lemma_lifted(threads, before, ipc::inherit_pass(threads, replies, k));
    }
}

proof fn lemma_lifted(a: ThreadTable, b: ThreadTable, c: ThreadTable)
    requires
        lifted(a, b),
        lifted(b, c),
    ensures
        lifted(a, c),
{
    assert forall|i: int| 0 <= i < 16 implies (#[trigger] c.slots@[i]).effective_priority
        >= a.slots@[i].effective_priority && c.slots@[i] == (Thread {
        effective_priority: c.slots@[i].effective_priority,
        ..a.slots@[i]
    }) by {
        assert(b.slots@[i].effective_priority >= a.slots@[i].effective_priority);
    }
}

proof fn lemma_all_supported(threads: ThreadTable, replies: [Reply; 16], pass: int)
    requires
        named(replies),
        forall|i: int| 0 <= i < 16 ==> #[trigger] supported(threads, replies, i),
    ensures
        lifted(threads, ipc::inherit_all(threads, replies, pass)),
        forall|i: int|
            0 <= i < 16 ==> #[trigger] supported(
                ipc::inherit_all(threads, replies, pass),
                replies,
                i,
            ),
    decreases 16 - pass,
{
    if pass < 16 {
        let next = ipc::inherit_pass(threads, replies, 16);
        lemma_pass_supported(threads, replies, 16);
        if next != threads {
            lemma_all_supported(next, replies, pass + 1);
            lemma_lifted(threads, next, ipc::inherit_all(threads, replies, pass));
        }
    }
}

proof fn lemma_reaching_is_lower(
    threads: ThreadTable,
    replies: [Reply; 16],
    caller: int,
    server: int,
    steps: nat,
)
    requires
        named(replies),
        0 <= server < 16,
        reaches(replies, caller, server, steps),
        forall|i: int| 0 <= i < 16 ==> served(threads, #[trigger] replies@[i]),
    ensures
        threads.slots@[caller].effective_priority <= threads.slots@[server].effective_priority,
    decreases steps,
{
    if caller != server {
        let i = choose|i: int|
            0 <= i < 16 && #[trigger] serves(replies, i, server) && reaches(
                replies,
                caller,
                replies@[i].caller as int,
                (steps - 1) as nat,
            );
        assert(served(threads, replies@[i]));
        lemma_reaching_is_lower(
            threads,
            replies,
            caller,
            replies@[i].caller as int,
            (steps - 1) as nat,
        );
    }
}

/// Once priorities are computed anew, the priority of a thread is the greatest own priority
/// among the thread itself and all that wait for it along chains of unanswered calls, which may
/// run in circles. Nothing else changes, and to compute them once more changes nothing.
pub proof fn law_priority_is_greatest_waiting(
    threads: ThreadTable,
    replies: [Reply; 16],
    slot: int,
)
    requires
        named(replies),
        0 <= slot < 16,
    ensures
        ({
            let after = ipc::inherited(threads, replies);
            &&& forall|caller: int, steps: nat|
                0 <= caller < 16 && #[trigger] reaches(replies, caller, slot, steps)
                    ==> threads.slots@[caller].base_priority
                    <= after.slots@[slot].effective_priority
            &&& exists|caller: int, steps: nat|
                0 <= caller < 16 && #[trigger] reaches(replies, caller, slot, steps)
                    && threads.slots@[caller].base_priority
                    == after.slots@[slot].effective_priority
            &&& after.slots@[slot] == (Thread {
                effective_priority: after.slots@[slot].effective_priority,
                ..threads.slots@[slot]
            })
            &&& after == (ThreadTable { slots: after.slots, ..threads })
            &&& ipc::inherited(after, replies) == after
        }),
{
    let f = ipc::uninherited();
    crate::util::lemma_mapped(threads.slots, f, 16);
    let start = ThreadTable { slots: crate::util::mapped(threads.slots, f, 16), ..threads };
    assert forall|i: int| 0 <= i < 16 implies #[trigger] supported(start, replies, i) by {
        assert(start.slots@[i] == f(threads.slots@[i]));
        assert(reaches(replies, i, i, 0));
    }
    lemma_all_supported(start, replies, 0);
    let after = ipc::inherited(threads, replies);
    law_servers_inherit(threads, replies);
    assert forall|i: int| 0 <= i < 16 implies #[trigger] start.slots@[i] == f(threads.slots@[i]) by {}
    assert forall|caller: int, steps: nat|
        0 <= caller < 16 && #[trigger] reaches(
            replies,
            caller,
            slot,
            steps,
        ) implies threads.slots@[caller].base_priority
        <= after.slots@[slot].effective_priority by {
        lemma_reaching_is_lower(after, replies, caller, slot, steps);
        assert(after.slots@[caller].effective_priority
            >= start.slots@[caller].effective_priority);
    }
    assert(supported(after, replies, slot));
    let (caller, steps) = choose|caller: int, steps: nat|
        0 <= caller < 16 && #[trigger] reaches(replies, caller, slot, steps)
            && after.slots@[caller].base_priority == after.slots@[slot].effective_priority;
    assert(after.slots@[caller].base_priority == start.slots@[caller].base_priority);
    crate::util::lemma_mapped(after.slots, f, 16);
    let again = ThreadTable { slots: crate::util::mapped(after.slots, f, 16), ..after };
    assert forall|i: int| 0 <= i < 16 implies again.slots@[i] == start.slots@[i] by {
        assert(again.slots@[i] == f(after.slots@[i]));
        assert(after.slots@[i] == (Thread {
            effective_priority: after.slots@[i].effective_priority,
            ..start.slots@[i]
        }));
    }
    assert(again.slots@ =~= start.slots@);
    assert(again.slots =~= start.slots);
}

/// The tables agree on all priorities and on what the threads resume with.
spec fn same_standing(a: ThreadTable, b: ThreadTable) -> bool {
    forall|i: int|
        0 <= i < 16 ==> (#[trigger] b.slots@[i]).base_priority == a.slots@[i].base_priority
            && b.slots@[i].effective_priority == a.slots@[i].effective_priority
            && b.slots@[i].context == a.slots@[i].context
}

proof fn lemma_announce_keeps_standing(s: MachineView, cx: Entry, before: ThreadTable, k: int)
    requires
        0 <= k <= 16,
        cx.cpu < 4,
    ensures
        same_standing(s.k.threads, s.announce_priorities(cx, before, k).k.threads),
        s.announce_priorities(cx, before, k).k.ipc == s.k.ipc,
    decreases k,
{
    reveal(MachineView::announce_priorities);
    if k > 0 {
        lemma_announce_keeps_standing(s, cx, before, k - 1);
        let t = s.announce_priorities(cx, before, k - 1);
        let u = t.priority_changed(cx, k - 1);
        let queued = t.enqueued(k - 1);
        assert(same_standing(t.k.threads, queued.k.threads));
        assert(same_standing(queued.k.threads, queued.charge_current(cx).k.threads));
        assert(same_standing(t.k.threads, u.k.threads));
    }
}

proof fn lemma_announce_nothing(s: MachineView, cx: Entry, k: int)
    requires
        0 <= k <= 16,
    ensures
        s.announce_priorities(cx, s.k.threads, k) == s,
    decreases k,
{
    reveal(MachineView::announce_priorities);
    if k > 0 {
        lemma_announce_nothing(s, cx, k - 1);
    }
}

/// The kernel's own computation of priorities gives every thread the greatest own priority among
/// the thread and all that wait for it, changes no thread's own priority, and settles: done again
/// at once it changes nothing.
pub proof fn law_recompute_settles(s: MachineView, cx: Entry, slot: int)
    requires
        named(s.k.ipc.replies),
        cx.cpu < 4,
        0 <= slot < 16,
    ensures
        ({
            let t = s.recompute(cx);
            let replies = s.k.ipc.replies;
            let reached = t.k.threads.slots@[slot].effective_priority;
            &&& forall|caller: int, steps: nat|
                0 <= caller < 16 && #[trigger] reaches(replies, caller, slot, steps)
                    ==> s.k.threads.slots@[caller].base_priority <= reached
            &&& exists|caller: int, steps: nat|
                0 <= caller < 16 && #[trigger] reaches(replies, caller, slot, steps)
                    && s.k.threads.slots@[caller].base_priority == reached
            &&& t.k.threads.slots@[slot].base_priority == s.k.threads.slots@[slot].base_priority
            &&& t.recompute(cx) == t
        }),
{
    let replies = s.k.ipc.replies;
    let after = ipc::inherited(s.k.threads, replies);
    let t = s.recompute(cx);
    lemma_announce_keeps_standing(s.with_threads(after), cx, s.k.threads, 16);
    law_priority_is_greatest_waiting(s.k.threads, replies, slot);
    assert(t.k.threads.slots@[slot].effective_priority == after.slots@[slot].effective_priority);
    let again = ipc::inherited(t.k.threads, replies);
    assert forall|i: int| 0 <= i < 16 implies again.slots@[i] == t.k.threads.slots@[i] by {
        lemma_same_base_same_priority(s.k.threads, t.k.threads, replies, i);
        assert(t.k.threads.slots@[i].effective_priority == after.slots@[i].effective_priority);
        law_priority_is_greatest_waiting(t.k.threads, replies, i);
    }
    assert(again.slots@ =~= t.k.threads.slots@);
    assert(again.slots =~= t.k.threads.slots);
    law_priority_is_greatest_waiting(t.k.threads, replies, slot);
    assert(again == t.k.threads);
    assert(t.with_threads(again) == t);
    lemma_announce_nothing(t, cx, 16);
}

proof fn lemma_same_base_same_priority(
    a: ThreadTable,
    b: ThreadTable,
    replies: [Reply; 16],
    slot: int,
)
    requires
        named(replies),
        0 <= slot < 16,
        same_standing(ipc::inherited(a, replies), b),
    ensures
        ipc::inherited(b, replies).slots@[slot].effective_priority == ipc::inherited(
            a,
            replies,
        ).slots@[slot].effective_priority,
{
    assert forall|i: int| 0 <= i < 16 implies (#[trigger] b.slots@[i]).base_priority
        == a.slots@[i].base_priority by {
        law_priority_is_greatest_waiting(a, replies, i);
    }
    law_priority_is_greatest_waiting(a, replies, slot);
    law_priority_is_greatest_waiting(b, replies, slot);
    let high = ipc::inherited(a, replies).slots@[slot].effective_priority;
    let low = ipc::inherited(b, replies).slots@[slot].effective_priority;
    let (c, m) = choose|caller: int, steps: nat|
        0 <= caller < 16 && #[trigger] reaches(replies, caller, slot, steps)
            && a.slots@[caller].base_priority == high;
    let (d, n) = choose|caller: int, steps: nat|
        0 <= caller < 16 && #[trigger] reaches(replies, caller, slot, steps)
            && b.slots@[caller].base_priority == low;
    assert(b.slots@[c].base_priority == a.slots@[c].base_priority);
    assert(b.slots@[d].base_priority == a.slots@[d].base_priority);
}

/// A thread other than the one that the call went to cannot answer it: the right is not found,
/// nothing changes, and the server can still use it.
pub proof fn law_only_server_answers(
    s: MachineView,
    cx: Entry,
    server: u8,
    handle: u64,
    endpoint: u64,
    frame: TrapFrame,
)
    requires
        s.k.ipc.find_reply(s.k.task.owner(), server, handle) is Ok,
        s.current(cx) != server,
    ensures
        s.reply(cx, handle, frame) == (
            s,
            frame,
            Err::<Dispatch, u64>(crate::abi::SYS_ERR_NOT_FOUND),
        ),
        s.reply_recv(cx, endpoint, handle, frame).0 == s,
        s.reply_recv(cx, endpoint, handle, frame).1 == frame,
        s.reply_recv(cx, endpoint, handle, frame).2 is Err,
{
}

/// The caller that an answer wakes resumes with zero as the result of its call, and is otherwise
/// as it was; so does the server that gave the answer.
pub proof fn law_caller_resumes_with_zero(s: MachineView, cx: Entry, handle: u64, frame: TrapFrame)
    requires
        s.wf(),
        cx.cpu < 4,
        s.k.task.owner() != 0,
        s.k.ipc.find_reply(s.k.task.owner(), s.current(cx), handle) is Ok,
    ensures
        ({
            let slot = s.k.ipc.find_reply(s.k.task.owner(), s.current(cx), handle)->Ok_0;
            let caller = s.k.ipc.replies@[slot].caller as int;
            &&& s.k.threads.slots@[caller].state == ThreadState::Blocked ==> s.answer(
                cx,
                handle,
            ).0.k.threads.slots@[caller].context
                == s.k.threads.slots@[caller].context.with_result(0)
            &&& s.reply(cx, handle, frame).1 == frame.with_result(0)
            &&& s.reply(cx, handle, frame).2 is Ok
        }),
{
    let slot = s.k.ipc.find_reply(s.k.task.owner(), s.current(cx), handle)->Ok_0;
    let reply = s.k.ipc.replies@[slot];
    assert(reply.wf());
    let caller = reply.caller as int;
    law_answered_once(s, cx, handle);
    let written = s.write_message(caller, cx.message);
    let t = written.wake(cx, caller, 0);
    let u = t.with_ipc(
        t.k.ipc.with_reply(
            slot,
            Reply::unused(crate::handle::generation_after(reply.generation)),
        ),
    );
    crate::handle::law_generation_moves(reply.generation);
    stillness::lemma_wake(written, cx, caller, 0);
    assert forall|i: int| 0 <= i < 16 implies (#[trigger] u.k.ipc.replies@[i]).wf() by {
        assert(s.k.ipc.replies@[i].wf());
    }
    stillness::lemma_recompute(u, cx);
    assert(stillness::reranked_thread(
        u.k.threads.slots@[caller],
        u.recompute(cx).k.threads.slots@[caller],
    ));
}

} // verus!
