//! What the end of a thread leaves behind: nothing that waits for it, and nothing that it waits
//! for.
use crate::abi;
use crate::laws::exchange::{self, asks, let_go, others_undisturbed, undisturbed};
use crate::laws::{resources, stillness};
use crate::machine::{Dispatch, Entry, MachineView};
use crate::memory::{mmu, vspace};
use crate::object::ipc::{self, Endpoint, Ipc, PendingSender, Reply};
use crate::object::thread::{Thread, ThreadState};
use crate::syscall::dispatch::TrapFrame;
use vstd::prelude::*;

verus! {

/// Some message in the line is from thread `slot`.
pub open spec fn sends(e: Endpoint, slot: u8) -> bool {
    exists|i: int| 0 <= i < e.sending().len() && (#[trigger] e.sending()[i]).slot == slot
}

/// Every sender of `a` but thread `slot` is among those of `b`, and the other way round.
pub open spec fn same_senders_but(a: Endpoint, b: Endpoint, slot: u8) -> bool {
    forall|p: PendingSender|
        p.slot != slot ==> (#[trigger] a.sending().contains(p) <==> b.sending().contains(p))
}

proof fn lemma_without_sender(e: Endpoint, slot: u8, from: int)
    requires
        0 <= from <= e.sender_count <= 16,
        forall|i: int| 0 <= i < from ==> (#[trigger] e.senders@[i]).slot != slot,
    ensures
        ({
            let r = e.without_sender(slot, from);
            &&& !sends(r, slot)
            &&& same_senders_but(e, r, slot)
            &&& r.sender_count <= e.sender_count
            &&& r.receivers == e.receivers
            &&& r.owner == e.owner
            &&& r.generation == e.generation
        }),
    decreases e.sender_count - from,
{
    let r = e.without_sender(slot, from);
    if from < e.sender_count {
        if e.senders@[from].slot == slot {
            let last = e.sender_count - 1;
            let f = Endpoint {
                senders: crate::util::ArrayUpdate::upd(e.senders, from, e.senders@[last]),
                sender_count: last as usize,
                ..e
            };
            lemma_without_sender(f, slot, from);
            assert forall|p: PendingSender| p.slot != slot implies (
            #[trigger] e.sending().contains(p) <==> r.sending().contains(p)) by {
                if e.sending().contains(p) {
                    let i = choose|i: int| 0 <= i < e.sending().len() && e.sending()[i] == p;
                    if i == last {
                        assert(f.sending()[from] == p);
                    } else {
                        assert(f.sending()[i] == p);
                    }
                    assert(f.sending().contains(p));
                }
                if f.sending().contains(p) {
                    let i = choose|i: int| 0 <= i < f.sending().len() && f.sending()[i] == p;
                    if i == from {
                        assert(e.sending()[last] == p);
                    } else {
                        assert(e.sending()[i] == p);
                    }
                }
            }
        } else {
            lemma_without_sender(e, slot, from + 1);
        }
    } else {
        assert(r == e);
        if sends(r, slot) {
            let i = choose|i: int|
                0 <= i < r.sending().len() && (#[trigger] r.sending()[i]).slot == slot;
            assert(r.senders@[i].slot != slot);
        }
    }
}

/// Thread `slot` stands in no line of `b`; who else stood in a line of `a` still does, and no badge
/// is lost.
pub open spec fn forgotten(a: Ipc, b: Ipc, slot: u8) -> bool {
    &&& forall|i: int|
        0 <= i < 16 ==> {
            let e = a.endpoints@[i];
            let f = #[trigger] b.endpoints@[i];
            &&& !f.receivers.waiting().contains(slot)
            &&& forall|other: u8|
                other != slot ==> (#[trigger] f.receivers.waiting().contains(other)
                    <==> e.receivers.waiting().contains(other))
            &&& !sends(f, slot)
            &&& same_senders_but(e, f, slot)
            &&& f.owner == e.owner
            &&& f.generation == e.generation
        }
    &&& forall|i: int|
        0 <= i < 32 ==> {
            let n = a.notifications@[i];
            let m = #[trigger] b.notifications@[i];
            &&& !m.waiters.waiting().contains(slot)
            &&& forall|other: u8|
                other != slot ==> (#[trigger] m.waiters.waiting().contains(other)
                    <==> n.waiters.waiting().contains(other))
            &&& m.pending == n.pending
            &&& m.owner == n.owner
            &&& m.generation == n.generation
        }
}

proof fn lemma_forgotten(a: Ipc, slot: u8)
    requires
        a.wf(),
    ensures
        forgotten(a, a.forgetting(slot), slot),
        a.forgetting(slot).replies == a.replies,
{
    let b = a.forgetting(slot);
    crate::util::lemma_mapped(a.endpoints, Ipc::endpoint_forgetting(slot), 16);
    crate::util::lemma_mapped(a.notifications, Ipc::notification_forgetting(slot), 32);
    assert forall|i: int| 0 <= i < 16 implies {
        let e = a.endpoints@[i];
        let f = #[trigger] b.endpoints@[i];
        &&& !f.receivers.waiting().contains(slot)
        &&& forall|other: u8|
            other != slot ==> (#[trigger] f.receivers.waiting().contains(other)
                <==> e.receivers.waiting().contains(other))
        &&& !sends(f, slot)
        &&& same_senders_but(e, f, slot)
        &&& f.owner == e.owner
        &&& f.generation == e.generation
    } by {
        let e = a.endpoints@[i];
        assert(e.wf());
        assert(b.endpoints@[i] == e.forgetting(slot));
        let g = Endpoint { receivers: e.receivers.removed(slot), ..e };
        lemma_without_sender(g, slot, 0);
        assert(g.sending() == e.sending());
        ipc::law_removed_waits_no_more(e.receivers, slot, slot);
        assert forall|other: u8| other != slot implies (
        #[trigger] b.endpoints@[i].receivers.waiting().contains(other)
            <==> e.receivers.waiting().contains(other)) by {
            ipc::law_removed_waits_no_more(e.receivers, slot, other);
        }
    }
    assert forall|i: int| 0 <= i < 32 implies {
        let n = a.notifications@[i];
        let m = #[trigger] b.notifications@[i];
        &&& !m.waiters.waiting().contains(slot)
        &&& forall|other: u8|
            other != slot ==> (#[trigger] m.waiters.waiting().contains(other)
                <==> n.waiters.waiting().contains(other))
        &&& m.pending == n.pending
        &&& m.owner == n.owner
        &&& m.generation == n.generation
    } by {
        let n = a.notifications@[i];
        assert(n.wf());
        assert(b.notifications@[i] == ipc::Notification {
            waiters: n.waiters.removed(slot),
            ..n
        });
        ipc::law_removed_waits_no_more(n.waiters, slot, slot);
        assert forall|other: u8| other != slot implies (
        #[trigger] b.notifications@[i].waiters.waiting().contains(other)
            <==> n.waiters.waiting().contains(other)) by {
            ipc::law_removed_waits_no_more(n.waiters, slot, other);
        }
    }
}

/// An open call between this thread and another.
pub open spec fn involves(reply: Reply, slot: int) -> bool {
    reply.owner != 0 && (reply.caller == slot || reply.server == slot)
}

/// Thread `i` waits for an answer of thread `slot`, in one of the first `k` open calls.
pub open spec fn waits_for(replies: [Reply; 16], slot: int, i: int, k: int) -> bool {
    exists|j: int|
        0 <= j < k && (#[trigger] replies@[j]).owner != 0 && replies@[j].server == slot
            && replies@[j].caller == i && i != slot
}

/// The first `k` rights to answer are given up where the thread is on either side.
pub open spec fn given_up(a: [Reply; 16], b: [Reply; 16], slot: int, k: int) -> bool {
    forall|j: int|
        0 <= j < 16 ==> if j < k && involves(a@[j], slot) {
            (#[trigger] b@[j]).owner == 0 && b@[j].generation != a@[j].generation
        } else {
            b@[j] == a@[j]
        }
}

#[verifier::spinoff_prover]
proof fn lemma_cancel_replies(s: MachineView, cx: Entry, slot: int, k: int)
    requires
        stillness::replies_sound(s.k.ipc.replies),
        0 <= k <= 16,
        0 <= slot < 16,
        cx.cpu < 4,
    ensures
        ({
            let t = s.cancel_replies(cx, slot, k);
            &&& stillness::replies_sound(t.k.ipc.replies)
            &&& given_up(s.k.ipc.replies, t.k.ipc.replies, slot, k)
            &&& t.k.ipc.endpoints == s.k.ipc.endpoints
            &&& t.k.ipc.notifications == s.k.ipc.notifications
            &&& t.k.threads.current == s.k.threads.current
            &&& t.k.threads.initialized == s.k.threads.initialized
            &&& forall|i: int|
                0 <= i < 16 ==> if waits_for(s.k.ipc.replies, slot, i, k)
                    && s.k.threads.slots@[i].state == ThreadState::Blocked {
                    let_go(s, t, i, abi::SYS_ERR_NOT_FOUND)
                } else {
                    undisturbed(s.k.threads.slots@[i], #[trigger] t.k.threads.slots@[i])
                        && t.k.threads.slots@[i].state == s.k.threads.slots@[i].state
                }
        }),
    decreases k,
{
    if k > 0 {
        lemma_cancel_replies(s, cx, slot, k - 1);
        let a = s.cancel_replies(cx, slot, k - 1);
        let t = s.cancel_replies(cx, slot, k);
        let reply = a.k.ipc.replies@[k - 1];
        assert(reply == s.k.ipc.replies@[k - 1]);
        assert(reply.wf());
        crate::handle::law_generation_moves(reply.generation);
        let caller = reply.caller as int;
        if involves(reply, slot) && reply.server == slot && reply.caller != slot {
            exchange::lemma_wake(a, cx, caller, abi::SYS_ERR_NOT_FOUND);
            assert forall|i: int| 0 <= i < 16 implies if waits_for(s.k.ipc.replies, slot, i, k)
                && s.k.threads.slots@[i].state == ThreadState::Blocked {
                let_go(s, t, i, abi::SYS_ERR_NOT_FOUND)
            } else {
                undisturbed(s.k.threads.slots@[i], #[trigger] t.k.threads.slots@[i])
                    && t.k.threads.slots@[i].state == s.k.threads.slots@[i].state
            } by {
                assert(t.k.threads.slots@[i] == a.wake(
                    cx,
                    caller,
                    abi::SYS_ERR_NOT_FOUND,
                ).k.threads.slots@[i]);
                if i == caller {
                    assert(s.k.ipc.replies@[k - 1].caller == i);
                    assert(waits_for(s.k.ipc.replies, slot, i, k));
                    if !waits_for(s.k.ipc.replies, slot, i, k - 1) {
                        assert(a.k.threads.slots@[i].state == s.k.threads.slots@[i].state);
                    }
                } else {
                    exchange::lemma_wake_keeps_states(
                        a,
                        cx,
                        caller,
                        abi::SYS_ERR_NOT_FOUND,
                        i,
                    );
                    assert(undisturbed(a.k.threads.slots@[i], t.k.threads.slots@[i]));
                    if waits_for(s.k.ipc.replies, slot, i, k) {
                        let j = choose|j: int|
                            0 <= j < k && (#[trigger] s.k.ipc.replies@[j]).owner != 0
                                && s.k.ipc.replies@[j].server == slot
                                && s.k.ipc.replies@[j].caller == i && i != slot;
                        assert(j < k - 1);
                        assert(s.k.ipc.replies@[j].owner != 0);
                    }
                    if waits_for(s.k.ipc.replies, slot, i, k - 1) {
                        let j = choose|j: int|
                            0 <= j < k - 1 && (#[trigger] s.k.ipc.replies@[j]).owner != 0
                                && s.k.ipc.replies@[j].server == slot
                                && s.k.ipc.replies@[j].caller == i && i != slot;
                        assert(s.k.ipc.replies@[j].owner != 0);
                    }
                }
            }
        } else {
            assert(t.k.threads == a.k.threads);
            assert forall|i: int| waits_for(s.k.ipc.replies, slot, i, k) == #[trigger] waits_for(
                s.k.ipc.replies,
                slot,
                i,
                k - 1,
            ) by {
                if waits_for(s.k.ipc.replies, slot, i, k) {
                    let j = choose|j: int|
                        0 <= j < k && (#[trigger] s.k.ipc.replies@[j]).owner != 0
                            && s.k.ipc.replies@[j].server == slot && s.k.ipc.replies@[j].caller
                            == i && i != slot;
                    assert(j < k - 1);
                    assert(s.k.ipc.replies@[j].owner != 0);
                }
                if waits_for(s.k.ipc.replies, slot, i, k - 1) {
                    let j = choose|j: int|
                        0 <= j < k - 1 && (#[trigger] s.k.ipc.replies@[j]).owner != 0
                            && s.k.ipc.replies@[j].server == slot && s.k.ipc.replies@[j].caller
                            == i && i != slot;
                    assert(s.k.ipc.replies@[j].owner != 0);
                }
            }
            assert forall|i: int| 0 <= i < 16 implies if waits_for(s.k.ipc.replies, slot, i, k)
                && s.k.threads.slots@[i].state == ThreadState::Blocked {
                let_go(s, t, i, abi::SYS_ERR_NOT_FOUND)
            } else {
                undisturbed(s.k.threads.slots@[i], #[trigger] t.k.threads.slots@[i])
                    && t.k.threads.slots@[i].state == s.k.threads.slots@[i].state
            } by {
                assert(waits_for(s.k.ipc.replies, slot, i, k) == waits_for(
                    s.k.ipc.replies,
                    slot,
                    i,
                    k - 1,
                ));
                assert(t.k.threads.slots@[i] == a.k.threads.slots@[i]);
            }
        }
        assert forall|j: int| 0 <= j < 16 implies (#[trigger] t.k.ipc.replies@[j]).wf() by {
            assert(a.k.ipc.replies@[j].wf());
        }
        assert forall|j: int| 0 <= j < 16 implies if j < k && involves(s.k.ipc.replies@[j], slot) {
            (#[trigger] t.k.ipc.replies@[j]).owner == 0 && t.k.ipc.replies@[j].generation
                != s.k.ipc.replies@[j].generation
        } else {
            t.k.ipc.replies@[j] == s.k.ipc.replies@[j]
        } by {
            assert(j != k - 1 ==> t.k.ipc.replies@[j] == a.k.ipc.replies@[j]);
            if j < k - 1 && involves(s.k.ipc.replies@[j], slot) {
                assert(a.k.ipc.replies@[j].owner == 0);
            }
        }
    }
}

/// A thread that takes part in no communication any more stands in no line, and every call that it
/// made or was to answer is closed. Those that waited for its answer go on and learn that it is not
/// there. Everybody else waits on or goes on as before, and no badge and no other call is lost.
#[verifier::spinoff_prover]
pub proof fn law_cancelled_thread_is_forgotten(s: MachineView, cx: Entry, slot: int)
    requires
        s.k.ipc.wf(),
        0 <= slot < 16,
        cx.cpu < 4,
    ensures
        ({
            let t = s.cancel_thread(cx, slot);
            &&& forgotten(s.k.ipc, t.k.ipc, slot as u8)
            &&& given_up(s.k.ipc.replies, t.k.ipc.replies, slot, 16)
            &&& t.k.threads.current == s.k.threads.current
            &&& forall|i: int|
                0 <= i < 16 ==> if waits_for(s.k.ipc.replies, slot, i, 16)
                    && s.k.threads.slots@[i].state == ThreadState::Blocked {
                    let_go(s, t, i, abi::SYS_ERR_NOT_FOUND)
                } else {
                    undisturbed(s.k.threads.slots@[i], #[trigger] t.k.threads.slots@[i])
                        && t.k.threads.slots@[i].state == s.k.threads.slots@[i].state
                }
        }),
{
    lemma_forgotten(s.k.ipc, slot as u8);
    let a = s.with_ipc(s.k.ipc.forgetting(slot as u8));
    assert(stillness::replies_sound(a.k.ipc.replies));
    lemma_cancel_replies(a, cx, slot, 16);
    let b = a.cancel_replies(cx, slot, 16);
    exchange::lemma_recompute(b, cx);
    let t = b.recompute(cx);
    assert forall|i: int| 0 <= i < 16 implies if waits_for(s.k.ipc.replies, slot, i, 16)
        && s.k.threads.slots@[i].state == ThreadState::Blocked {
        let_go(s, t, i, abi::SYS_ERR_NOT_FOUND)
    } else {
        undisturbed(s.k.threads.slots@[i], #[trigger] t.k.threads.slots@[i])
            && t.k.threads.slots@[i].state == s.k.threads.slots@[i].state
    } by {
        assert(undisturbed(b.k.threads.slots@[i], t.k.threads.slots@[i]));
        assert(t.k.threads.slots@[i].state == b.k.threads.slots@[i].state);
        assert(a.k.threads.slots@[i] == s.k.threads.slots@[i]);
        assert(b.k.threads.slots@[i] == b.k.threads.slots@[i]);
    }
}


proof fn lemma_drop_pages(s: MachineView, root: u64, va: int, pa: u64, pages: u64)
    requires
        s.paging_ok(),
        crate::memory::physical::PhysicalMemory::returnable(pa, pages),
        s.drop_pages(root, va, pa, pages).1 is None,
    ensures
        ({
            let (t, lost) = s.drop_pages(root, va, pa, pages);
            &&& resources::run_free(t.k.mem, pa, pages)
            &&& resources::keeps_free(s.k.mem, t.k.mem)
            &&& t.k == (crate::machine::Kernel { mem: t.k.mem, ..s.k })
            &&& crate::machine::tables_ok(t.tables)
            &&& t.k.mem.wf()
            &&& forall|r: u64, a: int|
                (#[trigger] t.page_at(r, a)) == if r == root && mmu::in_run(a, va, pages as int) {
                    None
                } else {
                    s.page_at(r, a)
                }
        }),
{
    let (t, lost) = s.drop_pages(root, va, pa, pages);
    resources::lemma_drop(s, root, va, pa, pages);
    if pages == 0 {
        assert forall|r: u64, a: int| (#[trigger] t.page_at(r, a)) == if r == root && mmu::in_run(
            a,
            va,
            pages as int,
        ) {
            None
        } else {
            s.page_at(r, a)
        } by {
            if mmu::in_run(a, va, 0) {
                let j = choose|j: int| 0 <= j < 0 && mmu::same_page(a, #[trigger] mmu::page_va(va, j));
            }
        }
    } else {
        mmu::law_unmap_run(s, root, va, pages as int);
        vspace::lemma_unmap_run_frame(s, root, va, pages as int);
        let u = s.unmap_run(root, va, pages as int).0;
        assert(t.tables == u.tables);
        assert forall|r: u64, a: int| (#[trigger] t.page_at(r, a)) == u.page_at(r, a) by {}
    }
}

/// A thread that ends is gone: its handle leads nowhere, its stack and its IPC buffer are not
/// mapped any more and their pages are free, it stands in no line, and its open calls are closed. Those that waited for its
/// answer go on and learn so; all other threads and pages are as they were. When it was the last
/// thread that the task made, the task ends with the code that it gave.
#[verifier::spinoff_prover]
#[verifier::rlimit(60)]
pub proof fn law_ended_thread_is_gone(s: MachineView, cx: Entry, frame: TrapFrame)
    requires
        asks(s, cx, frame, abi::SYS_THREAD_EXIT),
        s.svc_frame(cx, frame).2 != Dispatch::Halt,
    ensures
        ({
            let me = s.current(cx) as int;
            let before = s.k.threads.slots@[me];
            let (t, result, next) = s.svc_frame(cx, frame);
            &&& t.k.threads.slots@[me].state == ThreadState::Exited
            &&& t.k.threads.slots@[me].generation != before.generation
            &&& forgotten(s.k.ipc, t.k.ipc, me as u8)
            &&& given_up(s.k.ipc.replies, t.k.ipc.replies, me, 16)
            &&& forall|i: int|
                0 <= i < 16 && i != me ==> if waits_for(s.k.ipc.replies, me, i, 16)
                    && s.k.threads.slots@[i].state == ThreadState::Blocked {
                    let_go(s, t, i, abi::SYS_ERR_NOT_FOUND)
                } else {
                    undisturbed(s.k.threads.slots@[i], #[trigger] t.k.threads.slots@[i])
                }
            &&& forall|r: u64, a: int|
                (#[trigger] t.page_at(r, a)) == if r == before.vspace_root && (mmu::in_run(
                    a,
                    before.stack_va as int,
                    before.stack_pages as int,
                ) || before.ipc_pa != 0 && mmu::in_run(a, before.ipc_va as int, 1)) {
                    None
                } else {
                    s.page_at(r, a)
                }
            &&& resources::run_free(t.k.mem, before.stack_pa, before.stack_pages)
            &&& before.ipc_pa != 0 ==> resources::run_free(t.k.mem, before.ipc_pa, 1)
            &&& next == Dispatch::Exit(frame.x@[0]) <==> forall|i: int|
                0 <= i < 16 && i != me && (#[trigger] s.k.threads.slots@[i]).creator_owner
                    == s.k.task.owner() ==> !s.k.threads.slots@[i].live()
        }),
{
    let me = s.current(cx) as int;
    let before = s.k.threads.slots@[me];
    assert(before.wf());
    let a = s.save_current(cx.cpu as int, frame);
    assert forall|i: int| 0 <= i < 16 && i != me implies a.k.threads.slots@[i]
        == s.k.threads.slots@[i] by {}
    law_cancelled_thread_is_forgotten(a, cx, me);
    let b = a.cancel_thread(cx, me);
    stillness::lemma_cancel(a, cx, me);
    let thread = b.k.threads.slots@[me];
    assert(undisturbed(a.k.threads.slots@[me], thread)) by {
        if waits_for(a.k.ipc.replies, me, me, 16) {
            let j = choose|j: int|
                0 <= j < 16 && (#[trigger] a.k.ipc.replies@[j]).owner != 0
                    && a.k.ipc.replies@[j].server == me && a.k.ipc.replies@[j].caller == me && me
                    != me;
        }
        assert(b.k.threads.slots@[me].state == a.k.threads.slots@[me].state);
    }
    assert(b.tables == s.tables);
    assert(b.k.mem == s.k.mem);
    assert(b.paging_ok());
    let (c, lost) = b.drop_pages(
        thread.vspace_root,
        thread.stack_va as int,
        thread.stack_pa,
        thread.stack_pages,
    );
    assert(lost is None);
    lemma_drop_pages(
        b,
        thread.vspace_root,
        thread.stack_va as int,
        thread.stack_pa,
        thread.stack_pages,
    );
    let one: u64 = if thread.ipc_pa != 0 {
        1
    } else {
        0
    };
    let (d, lost2) = c.drop_ipc(thread.vspace_root, thread);
    assert(lost2 is None);
    lemma_drop_pages(c, thread.vspace_root, thread.ipc_va as int, thread.ipc_pa, one);
    assert(d == c.drop_pages(thread.vspace_root, thread.ipc_va as int, thread.ipc_pa, one).0);
    let (t, result, next) = s.svc_frame(cx, frame);
    let v = d.with_spaces(d.k.spaces.thread_removed(thread.vspace_handle)).op(
        crate::hw::HwOp::FlushTlb,
    );
    crate::handle::law_generation_moves(thread.generation);
    let w = v.with_threads(
        v.k.threads.with(
            me,
            Thread {
                base_priority: thread.base_priority,
                effective_priority: thread.effective_priority,
                ready_sequence: thread.ready_sequence,
                runtime_ticks: thread.runtime_ticks,
                ..Thread::empty(
                    crate::handle::generation_after(thread.generation),
                    ThreadState::Exited,
                )
            },
        ),
    );
    assert(w.k.ipc == b.k.ipc);
    assert(w.tables == d.tables);
    assert forall|i: int| 0 <= i < 16 && i != me implies w.k.threads.slots@[i]
        == b.k.threads.slots@[i] by {}
    assert(w.k.threads.slots@[me].state == ThreadState::Exited);
    if w.k.threads.has_live(w.k.task.owner()) {
        let x = w.charge_current(cx).disarm();
        assert(x.k.threads == w.k.threads);
        let y = x.searched(cx.cpu as int);
        exchange::lemma_next_is_ready(x, cx.cpu as int);
        if let Some(slot) = x.next_thread(cx.cpu as int) {
            exchange::lemma_activate(y, cx, slot);
        }
        assert(t == x.wait_and_activate(cx).0);
        assert(others_undisturbed(w, t, -1, -1, -1));
        assert(t.k.ipc == w.k.ipc);
        assert(t.tables == w.tables);
        assert(t.k.threads.slots@[me].state == ThreadState::Exited);
    } else {
        assert(t == w);
    }
    assert forall|r: u64, p: int| (#[trigger] t.page_at(r, p)) == if r == before.vspace_root && (
    mmu::in_run(p, before.stack_va as int, before.stack_pages as int) || before.ipc_pa != 0
        && mmu::in_run(p, before.ipc_va as int, 1)) {
        None
    } else {
        s.page_at(r, p)
    } by {
        assert(t.page_at(r, p) == d.page_at(r, p));
        assert(d.page_at(r, p) == if r == thread.vspace_root && mmu::in_run(
            p,
            thread.ipc_va as int,
            one as int,
        ) {
            None
        } else {
            c.page_at(r, p)
        });
        assert(b.page_at(r, p) == s.page_at(r, p));
        if one == 0 && mmu::in_run(p, thread.ipc_va as int, 0) {
            let j = choose|j: int|
                0 <= j < 0 && mmu::same_page(p, #[trigger] mmu::page_va(thread.ipc_va as int, j));
        }
    }
    assert forall|i: int| 0 <= i < 16 && i != me implies if waits_for(
        s.k.ipc.replies,
        me,
        i,
        16,
    ) && s.k.threads.slots@[i].state == ThreadState::Blocked {
        let_go(s, t, i, abi::SYS_ERR_NOT_FOUND)
    } else {
        undisturbed(s.k.threads.slots@[i], #[trigger] t.k.threads.slots@[i])
    } by {
        assert(w.k.threads.slots@[i] == b.k.threads.slots@[i]);
        assert(a.k.threads.slots@[i] == s.k.threads.slots@[i]);
        assert(t == w || undisturbed(w.k.threads.slots@[i], t.k.threads.slots@[i]));
        assert(waits_for(a.k.ipc.replies, me, i, 16) == waits_for(s.k.ipc.replies, me, i, 16));
        assert(b.k.threads.slots@[i] == b.k.threads.slots@[i]);
    }
    let last = forall|i: int|
        0 <= i < 16 && i != me && (#[trigger] s.k.threads.slots@[i]).creator_owner
            == s.k.task.owner() ==> !s.k.threads.slots@[i].live();
    assert(w.k.task.owner() == s.k.task.owner());
    assert(last == !w.k.threads.has_live(w.k.task.owner())) by {
        if last && w.k.threads.has_live(w.k.task.owner()) {
            let i = choose|i: int|
                0 <= i < 16 && (#[trigger] w.k.threads.slots@[i]).creator_owner
                    == w.k.task.owner() && w.k.threads.slots@[i].live();
            assert(i != me);
            assert(w.k.threads.slots@[i] == b.k.threads.slots@[i]);
            lemma_same_life(a, b, me, i);
            assert(s.k.threads.slots@[i].creator_owner == s.k.task.owner());
        }
        if !last && !w.k.threads.has_live(w.k.task.owner()) {
            let i = choose|i: int|
                0 <= i < 16 && i != me && (#[trigger] s.k.threads.slots@[i]).creator_owner
                    == s.k.task.owner() && s.k.threads.slots@[i].live();
            lemma_same_life(a, b, me, i);
            assert(w.k.threads.slots@[i].creator_owner == w.k.task.owner());
        }
    }
}

/// To be woken or left alone makes no thread live or dead, and does not change who made it.
proof fn lemma_same_life(s: MachineView, t: MachineView, slot: int, i: int)
    requires
        0 <= i < 16,
        if waits_for(s.k.ipc.replies, slot, i, 16) && s.k.threads.slots@[i].state
            == ThreadState::Blocked {
            let_go(s, t, i, abi::SYS_ERR_NOT_FOUND)
        } else {
            undisturbed(s.k.threads.slots@[i], t.k.threads.slots@[i])
        },
    ensures
        t.k.threads.slots@[i].creator_owner == s.k.threads.slots@[i].creator_owner,
        t.k.threads.slots@[i].live() == s.k.threads.slots@[i].live(),
{
}


/// The threads are sound, and so is what mapping relies on.
spec fn kept_up(s: MachineView) -> bool {
    s.paging_ok() && s.k.threads.wf()
}

proof fn lemma_cleanup_slots(s: MachineView, root: u64, k: int)
    requires
        kept_up(s),
        0 <= k <= 16,
        s.cleanup_slots(root, k).1 is None,
    ensures
        ({
            let t = s.cleanup_slots(root, k).0;
            &&& kept_up(t)
            &&& t.k.ipc == s.k.ipc
            &&& t.k.task == s.k.task
            &&& t.k.frames == s.k.frames
            &&& t.k.spaces.mappings == s.k.spaces.mappings
            &&& forall|i: int|
                k <= i < 16 ==> #[trigger] t.k.threads.slots@[i] == s.k.threads.slots@[i]
            &&& forall|i: int|
                0 <= i < k ==> if s.k.threads.slots@[i].owner == 0 {
                    #[trigger] t.k.threads.slots@[i] == s.k.threads.slots@[i]
                } else {
                    t.k.threads.slots@[i].state == ThreadState::Free && t.k.threads.slots@[i].owner
                        == 0 && t.k.threads.slots@[i].generation
                        != s.k.threads.slots@[i].generation
                }
        }),
    decreases k,
{
    if k > 0 {
        lemma_cleanup_slots(s, root, k - 1);
        let a = s.cleanup_slots(root, k - 1).0;
        let thread = a.k.threads.slots@[k - 1];
        assert(thread.wf());
        crate::handle::law_generation_moves(thread.generation);
        let table = if thread.vspace_root > root {
            thread.vspace_root
        } else {
            root
        };
        if thread.owner != 0 {
            lemma_drop_pages(
                a,
                table,
                thread.stack_va as int,
                thread.stack_pa,
                thread.stack_pages,
            );
            let b = a.drop_pages(
                table,
                thread.stack_va as int,
                thread.stack_pa,
                thread.stack_pages,
            ).0;
            let one: u64 = if thread.ipc_pa != 0 {
                1
            } else {
                0
            };
            lemma_drop_pages(b, table, thread.ipc_va as int, thread.ipc_pa, one);
            let t = s.cleanup_slots(root, k).0;
            assert forall|i: int| 0 <= i < 16 implies (#[trigger] t.k.threads.slots@[i]).wf() by {
                assert(a.k.threads.slots@[i].wf());
            }
        }
    }
}

proof fn lemma_undo(s: MachineView, owner: u32, taken: Seq<vspace::MappingEntry>, k: int)
    requires
        s.paging_ok(),
        0 <= k <= taken.len(),
        forall|i: int| 0 <= i < taken.len() ==> 0 <= (#[trigger] taken[i]).pages,
    ensures
        ({
            let t = s.undo_mappings(owner, taken, k);
            &&& t.paging_ok()
            &&& t.k.ipc == s.k.ipc
            &&& t.k.task == s.k.task
            &&& t.k.threads == s.k.threads
            &&& t.k.spaces.mappings == s.k.spaces.mappings
        }),
    decreases k,
{
    if k > 0 {
        lemma_undo(s, owner, taken, k - 1);
        let a = s.undo_mappings(owner, taken, k - 1);
        let entry = taken[k - 1];
        mmu::law_unmap_run(a, entry.target_root, entry.va as int, entry.pages as int);
        vspace::lemma_unmap_run_frame(a, entry.target_root, entry.va as int, entry.pages as int);
    }
}

pub(crate) proof fn lemma_unmap_runs(s: MachineView, root: u64, runs: Seq<(u64, u64)>, k: int)
    requires
        s.paging_ok(),
        0 <= k <= runs.len(),
    ensures
        ({
            let t = s.unmap_runs(root, runs, k);
            &&& t.paging_ok()
            &&& t.k == s.k
            &&& forall|j: int, a: int|
                0 <= j < k && #[trigger] mmu::in_run(a, runs[j].0 as int, runs[j].1 as int)
                    ==> t.page_at(root, a) is None
        }),
    decreases k,
{
    if k > 0 {
        lemma_unmap_runs(s, root, runs, k - 1);
        let b = s.unmap_runs(root, runs, k - 1);
        let run = runs[k - 1];
        mmu::law_unmap_run(b, root, run.0 as int, run.1 as int);
        vspace::lemma_unmap_run_frame(b, root, run.0 as int, run.1 as int);
        let t = s.unmap_runs(root, runs, k);
        assert forall|j: int, a: int|
            0 <= j < k && #[trigger] mmu::in_run(
                a,
                runs[j].0 as int,
                runs[j].1 as int,
            ) implies t.page_at(root, a) is None by {
            assert(t.page_at(root, a) is None || t.page_at(root, a) == b.page_at(root, a));
            if j < k - 1 {
                assert(b.page_at(root, a) is None);
            }
        }
    }
}

/// When the task has ended, nothing is left of it: no grant, no binding, no endpoint, notification
/// or open call, no frame and no mapping, and no thread. Its segments, its stack, its heap, what it
/// was told, its devices and its DMA memory are not mapped any more.
#[verifier::spinoff_prover]
#[verifier::rlimit(40)]
pub proof fn law_ended_task_leaves_nothing(s: MachineView)
    requires
        s.wf(),
        s.k.task.active,
        s.k.threads.initialized,
        s.task_exit().1 is Ok,
    ensures
        ({
            let (t, r) = s.task_exit();
            let task = s.k.task;
            let root = s.k.active_table;
            &&& r->Ok_0 is Some
            &&& !t.k.task.active
            &&& t.k.task.mmio_grant_count == 0
            &&& t.k.task.irq_grant_count == 0
            &&& t.k.task.irq_binding_count == 0
            &&& forall|i: int| 0 <= i < 16 ==> (#[trigger] t.k.ipc.endpoints@[i]).owner != 1
            &&& forall|i: int| 0 <= i < 32 ==> (#[trigger] t.k.ipc.notifications@[i]).owner != 1
            &&& forall|i: int| 0 <= i < 16 ==> (#[trigger] t.k.ipc.replies@[i]).owner != 1
            &&& forall|i: int| 0 <= i < 64 ==> (#[trigger] t.k.frames@[i]).owner != 1
            &&& forall|i: int| 0 <= i < 128 ==> (#[trigger] t.k.spaces.mappings@[i]).owner != 1
            &&& forall|i: int| 0 <= i < 16 ==> (#[trigger] t.k.threads.slots@[i]).owner == 0
            &&& forall|i: int| 0 <= i < 4 ==> #[trigger] t.k.threads.current@[i] == 0xff
            &&& forall|i: int, a: int|
                0 <= i < task.owned_count && #[trigger] mmu::in_run(
                    a,
                    task.owned@[i].va as int,
                    task.owned@[i].pages as int,
                ) ==> t.page_at(root, a) is None
            &&& forall|i: int, a: int|
                0 <= i < task.mmio_count && #[trigger] mmu::in_run(
                    a,
                    task.mmio@[i].va as int,
                    task.mmio@[i].pages as int,
                ) ==> t.page_at(root, a) is None
            &&& forall|i: int, a: int|
                0 <= i < task.dma_count && #[trigger] mmu::in_run(
                    a,
                    task.dma@[i].va as int,
                    task.dma@[i].pages as int,
                ) ==> t.page_at(root, a) is None
            &&& forall|a: int|
                mmu::in_run(a, abi::USER_STACK_TOP - 0x1_0000, 16) || mmu::in_run(
                    a,
                    abi::USER_BOOT_INFO_VA as int,
                    1,
                ) || mmu::in_run(a, abi::USER_HEAP_BASE as int, 1024) ==> (#[trigger] t.page_at(
                    root,
                    a,
                )) is None
        }),
{
    let owner = 1u32;
    let root = s.k.active_table;
    let task = s.k.task;
    let (t, r) = s.task_exit();
    let quiet = s.with_task(
        crate::object::task::TaskResources { irq_binding_count: 0, ..s.k.task },
    ).with_ops(s.k.task.disable_bound(s.k.gic, s.k.task.irq_binding_count as int)).sched_cleanup();
    let b = quiet.with_ipc(quiet.k.ipc.without_owner(owner));
    assert(kept_up(b));
    lemma_cleanup_slots(b, root, 16);
    let c = s.task_stopped().0;
    let c0 = b.cleanup_slots(root, 16).0;
    assert(c.tables == c0.tables && c.k.mem == c0.k.mem);
    crate::util::lemma_mapped(s.k.ipc.endpoints, Ipc::drop_endpoint(owner), 16);
    crate::util::lemma_mapped(s.k.ipc.notifications, Ipc::drop_notification(owner), 32);
    crate::util::lemma_mapped(s.k.ipc.replies, Ipc::drop_reply(owner), 16);
    let taken = vspace::mappings_of(c.k.spaces.mappings, owner, 128);
    let d0 = c.with_spaces(
        vspace::VSpaces {
            mappings: crate::util::mapped(
                c.k.spaces.mappings,
                vspace::drop_mapping(owner),
                128,
            ),
            ..c.k.spaces
        },
    );
    crate::util::lemma_mapped(c.k.spaces.mappings, vspace::drop_mapping(owner), 128);
    lemma_undo(d0, owner, taken, taken.len() as int);
    let d = c.vspace_cleanup(owner);
    let runs = d.k.task.user_runs();
    lemma_unmap_runs(d, root, runs, runs.len() as int);
    let e = d.unmap_runs(root, runs, runs.len() as int).op(crate::hw::HwOp::FlushTlb);
    let f = e.frame_cleanup(owner).0;
    crate::util::lemma_mapped(e.k.frames, crate::memory::frame::drop_frame(owner), 64);
    assert(t.tables == e.tables);
    assert(t.k.ipc == b.k.ipc);
    assert(t.k.threads == c.k.threads);
    assert(d.k.task == quiet.k.task);
    let n1 = task.owned_count as int;
    let n2 = n1 + 3;
    let n3 = n2 + task.mmio_count;
    assert forall|i: int| 0 <= i < 16 implies (#[trigger] t.k.threads.slots@[i]).owner == 0 by {
        assert(c0.k.threads.slots@[i].owner == 0);
    }
    assert forall|i: int| 0 <= i < 16 implies (#[trigger] t.k.ipc.endpoints@[i]).owner != 1 by {
        assert(b.k.ipc.endpoints@[i] == Ipc::drop_endpoint(owner)(s.k.ipc.endpoints@[i]));
    }
    assert forall|i: int| 0 <= i < 32 implies (#[trigger] t.k.ipc.notifications@[i]).owner != 1 by {
        assert(b.k.ipc.notifications@[i] == Ipc::drop_notification(owner)(
            s.k.ipc.notifications@[i],
        ));
    }
    assert forall|i: int| 0 <= i < 16 implies (#[trigger] t.k.ipc.replies@[i]).owner != 1 by {
        assert(b.k.ipc.replies@[i] == Ipc::drop_reply(owner)(s.k.ipc.replies@[i]));
    }
    assert forall|i: int| 0 <= i < 64 implies (#[trigger] t.k.frames@[i]).owner != 1 by {
        assert(f.k.frames@[i] == crate::memory::frame::drop_frame(owner)(e.k.frames@[i]));
    }
    assert forall|i: int| 0 <= i < 128 implies (#[trigger] t.k.spaces.mappings@[i]).owner != 1 by {
        assert(d0.k.spaces.mappings@[i] == vspace::drop_mapping(owner)(
            c.k.spaces.mappings@[i],
        ));
    }
    assert forall|i: int, a: int|
        0 <= i < task.owned_count && #[trigger] mmu::in_run(
            a,
            task.owned@[i].va as int,
            task.owned@[i].pages as int,
        ) implies t.page_at(root, a) is None by {
        assert(runs[i] == (task.owned@[i].va, task.owned@[i].pages));
        assert(mmu::in_run(a, runs[i].0 as int, runs[i].1 as int));
        assert(t.page_at(root, a) == e.page_at(root, a));
    }
    assert forall|i: int, a: int|
        0 <= i < task.mmio_count && #[trigger] mmu::in_run(
            a,
            task.mmio@[i].va as int,
            task.mmio@[i].pages as int,
        ) implies t.page_at(root, a) is None by {
        assert(runs[n2 + i] == (task.mmio@[i].va, task.mmio@[i].pages));
        assert(mmu::in_run(a, runs[n2 + i].0 as int, runs[n2 + i].1 as int));
        assert(t.page_at(root, a) == e.page_at(root, a));
    }
    assert forall|i: int, a: int|
        0 <= i < task.dma_count && #[trigger] mmu::in_run(
            a,
            task.dma@[i].va as int,
            task.dma@[i].pages as int,
        ) implies t.page_at(root, a) is None by {
        assert(runs[n3 + i] == (task.dma@[i].va, task.dma@[i].pages));
        assert(mmu::in_run(a, runs[n3 + i].0 as int, runs[n3 + i].1 as int));
        assert(t.page_at(root, a) == e.page_at(root, a));
    }
    assert forall|a: int|
        mmu::in_run(a, abi::USER_STACK_TOP - 0x1_0000, 16) || mmu::in_run(
            a,
            abi::USER_BOOT_INFO_VA as int,
            1,
        ) || mmu::in_run(a, abi::USER_HEAP_BASE as int, 1024) implies (#[trigger] t.page_at(
        root,
        a,
    )) is None by {
        assert(runs[n1] == ((abi::USER_STACK_TOP - 16 * 4096) as u64, 16u64));
        assert(runs[n1 + 1] == (abi::USER_BOOT_INFO_VA, 1u64));
        assert(runs[n1 + 2] == (abi::USER_HEAP_BASE, 1024u64));
        assert(mmu::in_run(a, runs[n1].0 as int, runs[n1].1 as int) || mmu::in_run(
            a,
            runs[n1 + 1].0 as int,
            runs[n1 + 1].1 as int,
        ) || mmu::in_run(a, runs[n1 + 2].0 as int, runs[n1 + 2].1 as int));
        assert(t.page_at(root, a) == e.page_at(root, a));
    }
}

} // verus!
