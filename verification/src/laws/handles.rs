//! Handles of address spaces, notifications and reply rights: how long they name what they were made for.
use crate::abi;
use crate::handle::{generation_after, generation_ok, SlotUse, MAX_GENERATION};
use crate::laws::{calls, delivery, scheduling, stillness};
use crate::machine::{Entry, Fault, MachineView};
use crate::memory::vspace::VSpaces;
use crate::object::ipc::{Ipc, Notification, Reply};
use crate::syscall::dispatch::TrapFrame;
use crate::{handle, memory};
use vstd::prelude::*;

verus! {

/// Both tables have the same address spaces in use, under the same generations.
pub open spec fn same_spaces(a: VSpaces, b: VSpaces) -> bool {
    forall|i: int|
        0 <= i < 8 ==> (#[trigger] b.spaces@[i]).generation == a.spaces@[i].generation
            && b.spaces@[i].active == a.spaces@[i].active
}

/// From `a` to `b` an address space was made or destroyed, or something else happened.
pub open spec fn space_step(a: MachineView, b: MachineView) -> bool {
    ||| exists|owner: u32| b == (#[trigger] a.vspace_create(owner)).0
    ||| exists|owner: u32, handle: u64| b == (#[trigger] a.vspace_destroy(owner, handle)).0
    ||| same_spaces(a.k.spaces, b.k.spaces)
}

proof fn lemma_free_space(spaces: VSpaces, from: int)
    requires
        0 <= from,
    ensures
        match spaces.free_space(from) {
            Some(slot) => from <= slot < 8 && !spaces.spaces@[slot].active,
            None => true,
        },
    decreases 8 - from,
{
    if from < 8 && spaces.spaces@[from].active {
        lemma_free_space(spaces, from + 1);
    }
}

/// Making an address space touches the entry that it takes and no other, and leaves all
/// generations.
proof fn lemma_create_keeps_generations(s: MachineView, owner: u32)
    ensures
        ({
            let (t, r) = s.vspace_create(owner);
            let slot = s.k.spaces.free_space(1)->0;
            &&& forall|i: int|
                0 <= i < 8 ==> (#[trigger] t.k.spaces.spaces@[i]).generation
                    == s.k.spaces.spaces@[i].generation
            &&& r is Ok && !abi::sys_error(r->Ok_0) ==> {
                &&& 1 <= slot < 8
                &&& r->Ok_0 == handle::handle_of(slot, s.k.spaces.spaces@[slot].generation) as u64
                &&& t.k.spaces.spaces@[slot].active
                &&& t.k.spaces.spaces@[slot].creator_owner == owner
                &&& t.k.spaces.spaces@[slot].active_thread_count == 0
                &&& t.k.spaces.spaces@[slot].mapping_count == 0
            }
        }),
{
    reveal(MachineView::new_table);
    lemma_free_space(s.k.spaces, 1);
    if owner != 0 {
        if let Some(slot) = s.k.spaces.free_space(1) {
            let (a, table) = s.new_table();
            if let Some(root) = table {
                let (b, fault) = a.map_blocks(
                    root,
                    0,
                    memory::mmu::MMU_KERNEL,
                    abi::USER_BASE as int,
                    abi::USER_WINDOW_END as int,
                    0xc00,
                );
                memory::vspace::lemma_map_blocks_frame(
                    a,
                    root,
                    0,
                    memory::mmu::MMU_KERNEL,
                    abi::USER_BASE as int,
                    abi::USER_WINDOW_END as int,
                    0xc00,
                );
                calls::lemma_map_devices_frame(b, root, b.k.spaces.device_count as int);
            }
        }
    }
}

/// An address space that was made is found by its owner under its handle, without threads and
/// mappings.
pub proof fn law_created_space_is_found(s: MachineView, owner: u32)
    requires
        s.wf(),
        s.vspace_create(owner).1 is Ok,
        !abi::sys_error(s.vspace_create(owner).1->Ok_0),
    ensures
        ({
            let (t, r) = s.vspace_create(owner);
            match t.k.spaces.find_for(owner, r->Ok_0) {
                Ok(slot) => {
                    &&& slot != 0
                    &&& t.k.spaces.spaces@[slot].active_thread_count == 0
                    &&& t.k.spaces.spaces@[slot].mapping_count == 0
                },
                Err(_) => false,
            }
        }),
{
    lemma_create_keeps_generations(s, owner);
    let slot = s.k.spaces.free_space(1)->0;
    assert(generation_ok(s.k.spaces.spaces@[slot].generation));
    handle::law_handle_round_trip(slot, s.k.spaces.spaces@[slot].generation, 8);
}

/// Of a live address space other than the first, its owner is refused as busy exactly while
/// threads or mappings use it, and everyone else is denied; a refusal changes nothing. Otherwise
/// the space goes, unless the kernel cannot record its pages.
pub proof fn law_space_goes_when_unused(s: MachineView, owner: u32, handle: u64, slot: int)
    requires
        s.k.spaces.find(handle) == Ok::<int, u64>(slot),
        slot != 0,
    ensures
        ({
            let (t, r) = s.vspace_destroy(owner, handle);
            let entry = s.k.spaces.spaces@[slot];
            let used = entry.active_thread_count != 0 || entry.mapping_count != 0;
            &&& owner != entry.creator_owner ==> (t, r) == (
                s,
                Ok::<u64, Fault>(abi::SYS_ERR_DENIED),
            )
            &&& owner == entry.creator_owner && used ==> (t, r) == (
                s,
                Ok::<u64, Fault>(abi::SYS_ERR_BUSY),
            )
            &&& owner == entry.creator_owner && !used ==> r == Ok::<u64, Fault>(0) || r is Err
        }),
{
}

/// What became of an address space's slot, state by state.
pub open spec fn space_history(states: Seq<MachineView>, slot: int) -> Seq<SlotUse> {
    Seq::new(
        states.len(),
        |i: int|
            SlotUse {
                used: states[i].k.spaces.spaces@[slot].active,
                generation: states[i].k.spaces.spaces@[slot].generation,
            },
    )
}

/// The handle of a destroyed address space stays stale through whatever follows, also when its
/// place is taken again, as long as that is less often than there are generations. To destroy it
/// once more finds nothing.
pub proof fn law_destroyed_space_stays_stale(
    s: MachineView,
    owner: u32,
    handle: u64,
    states: Seq<MachineView>,
)
    requires
        s.wf(),
        s.vspace_destroy(owner, handle).1 == Ok::<u64, Fault>(0),
        0 < states.len(),
        handle::times_taken(
            space_history(states, handle::slot_of(handle)),
            states.len() - 1,
        ) < MAX_GENERATION,
        states[0] == s.vspace_destroy(owner, handle).0,
        forall|i: int|
            0 <= i < states.len() - 1 ==> space_step(states[i], #[trigger] states[i + 1]),
    ensures
        ({
            let t = states.last();
            &&& t.k.spaces.find(handle) == Err::<int, u64>(abi::SYS_ERR_NOT_FOUND)
            &&& forall|who: u32|
                (#[trigger] t.k.spaces.find_for(who, handle)) == Err::<int, u64>(
                    abi::SYS_ERR_NOT_FOUND,
                )
            &&& forall|who: u32|
                (#[trigger] t.vspace_destroy(who, handle)) == (
                    t,
                    Ok::<u64, Fault>(abi::SYS_ERR_NOT_FOUND),
                )
        }),
{
    let slot = s.k.spaces.find_for(owner, handle)->Ok_0;
    let from = s.k.spaces.spaces@[slot].generation;
    assert(generation_ok(s.k.spaces.spaces@[slot].generation));
    let history = space_history(states, slot);
    assert forall|i: int| 0 <= i < history.len() - 1 implies handle::slot_step(
        history[i],
        #[trigger] history[i + 1],
    ) by {
        let a = states[i];
        let b = states[i + 1];
        assert(space_step(a, b));
        if exists|o: u32| b == (#[trigger] a.vspace_create(o)).0 {
            let o = choose|o: u32| b == (#[trigger] a.vspace_create(o)).0;
            lemma_create_keeps_generations(a, o);
            assert(b.k.spaces.spaces@[slot].generation == a.k.spaces.spaces@[slot].generation);
        } else if exists|o: u32, h: u64| b == (#[trigger] a.vspace_destroy(o, h)).0 {
            let (o, h) = choose|o: u32, h: u64| b == (#[trigger] a.vspace_destroy(o, h)).0;
            if let Ok(gone) = a.k.spaces.find_for(o, h) {
                assert(b.k.spaces.spaces@[slot].generation == a.k.spaces.spaces@[slot].generation
                    || gone == slot);
            }
        } else {
            assert(b.k.spaces.spaces@[slot].generation == a.k.spaces.spaces@[slot].generation);
        }
    }
    handle::law_handle_stays_stale(from, history, history.len() - 1);
}

/// Both tables have the same notifications, of the same owners, under the same generations.
pub open spec fn same_notifications(a: Ipc, b: Ipc) -> bool {
    forall|i: int|
        0 <= i < 32 ==> (#[trigger] b.notifications@[i]).owner == a.notifications@[i].owner
            && b.notifications@[i].generation == a.notifications@[i].generation
}

/// From `a` to `b` a notification was made, one other than that of `spared` was destroyed, or
/// something else happened. The task stays the same.
pub open spec fn notification_step(a: MachineView, b: MachineView, spared: Option<u64>) -> bool {
    &&& b.k.task.owner() == a.k.task.owner()
    &&& {
        ||| b == a.notification_create().0
        ||| a.k.task.owner() != 0 && exists|handle: u64|
            spared != Some(handle) && b == (#[trigger] a.notification_destroy(handle)).0
        ||| same_notifications(a.k.ipc, b.k.ipc)
    }
}

proof fn lemma_free_notification(ipc: Ipc, from: int)
    requires
        0 <= from,
    ensures
        match ipc.free_notification(from) {
            Some(slot) => from <= slot < 32 && ipc.notifications@[slot].owner == 0,
            None => true,
        },
    decreases 32 - from,
{
    if from < 32 && ipc.notifications@[from].owner != 0 {
        lemma_free_notification(ipc, from + 1);
    }
}

/// Signalling, polling and, for a running thread, waiting leave every notification with its owner and its handle.
pub proof fn law_use_keeps_notifications(
    s: MachineView,
    cx: Entry,
    handle: u64,
    badge: u64,
    frame: TrapFrame,
)
    requires
        cx.cpu < 4,
    ensures
        notification_step(s, s.signal(cx, handle, badge).0, None),
        notification_step(s, s.notification_poll(handle).0, None),
        s.k.threads.runs(cx.cpu as int) ==> notification_step(
            s,
            s.wait(cx, handle, frame).0,
            None,
        ),
{
    if let Ok(slot) = s.k.ipc.find_notification(s.k.task.owner(), handle) {
        let notification = s.k.ipc.notifications@[slot];
        let popped = s.with_notification(
            slot,
            Notification { pending: 0, waiters: notification.waiters.popped(), ..notification },
        );
        let first = notification.waiters.slots@[0] as int;
        delivery::lemma_wake_later(popped, cx, first, notification.pending | badge);
        assert(popped.wake(cx, first, notification.pending | badge).k.ipc == popped.k.ipc);
        assert(same_notifications(s.k.ipc, s.signal(cx, handle, badge).0.k.ipc));
        let queued = s.with_notification(
            slot,
            Notification {
                waiters: notification.waiters.pushed(s.current(cx)),
                ..notification
            },
        );
        if s.k.threads.runs(cx.cpu as int) {
            delivery::lemma_block_later(queued, cx, frame);
            assert(same_notifications(s.k.ipc, s.wait(cx, handle, frame).0.k.ipc));
        }
    }
}

/// A notification that was made is valid, and stays valid through whatever follows until it is
/// destroyed by its own handle.
pub proof fn law_notification_lives_until_destroyed(
    s: MachineView,
    states: Seq<MachineView>,
    n: int,
)
    requires
        s.wf(),
        s.k.task.active,
        s.k.ipc.free_notification(0) is Some,
        0 <= n < states.len(),
        states[0] == s.notification_create().0,
        forall|i: int|
            0 <= i < states.len() - 1 ==> notification_step(
                states[i],
                #[trigger] states[i + 1],
                Some(s.notification_create().1),
            ),
    ensures
        states[n].k.task.owner() == s.k.task.owner(),
        states[n].k.ipc.find_notification(s.k.task.owner(), s.notification_create().1) is Ok,
    decreases n,
{
    let handle = s.notification_create().1;
    let slot = s.k.ipc.free_notification(0)->0;
    let generation = s.k.ipc.notifications@[slot].generation;
    lemma_free_notification(s.k.ipc, 0);
    assert(s.k.ipc.notifications@[slot].wf());
    handle::law_handle_round_trip(slot, generation, 32);
    if n > 0 {
        law_notification_lives_until_destroyed(s, states, n - 1);
        let a = states[n - 1];
        let b = states[n - 1 + 1];
        assert(notification_step(a, b, Some(handle)));
        lemma_free_notification(a.k.ipc, 0);
        if b == a.notification_create().0 {
        } else if a.k.task.owner() != 0 && exists|h: u64|
            h != handle && b == (#[trigger] a.notification_destroy(h)).0 {
            let h = choose|h: u64| h != handle && b == (#[trigger] a.notification_destroy(h)).0;
            if let Ok(gone) = a.k.ipc.find_notification(a.k.task.owner(), h) {
                if gone == slot {
                    assert(h == handle::handle_of(slot, generation));
                }
            }
        } else {
            assert(b.k.ipc.notifications@[slot].owner == a.k.ipc.notifications@[slot].owner);
        }
    }
}

/// From `a` to `b` notifications were used, made or destroyed, the objects of an owner went, or
/// all tables were emptied for a new task.
pub open spec fn any_step(a: MachineView, b: MachineView) -> bool {
    ||| notification_step(a, b, None)
    ||| exists|owner: u32| owner != 0 && b.k.ipc == #[trigger] a.k.ipc.without_owner(owner)
    ||| b.k.ipc == a.k.ipc.renewed()
}

/// What became of a notification's slot, state by state.
pub open spec fn notification_history(states: Seq<MachineView>, slot: int) -> Seq<SlotUse> {
    Seq::new(
        states.len(),
        |i: int|
            SlotUse {
                used: states[i].k.ipc.notifications@[slot].owner != 0,
                generation: states[i].k.ipc.notifications@[slot].generation,
            },
    )
}

/// The handle of a destroyed notification stays invalid through whatever follows, also when its
/// place is taken again, as long as that is less often than there are generations.
pub proof fn law_destroyed_notification_stays_stale(
    s: MachineView,
    handle: u64,
    states: Seq<MachineView>,
)
    requires
        s.wf(),
        s.k.task.owner() != 0,
        s.notification_destroy(handle).1 == 0,
        0 < states.len(),
        handle::times_taken(
            notification_history(states, handle::slot_of(handle)),
            states.len() - 1,
        ) < MAX_GENERATION,
        states[0] == s.notification_destroy(handle).0,
        forall|i: int|
            0 <= i < states.len() - 1 ==> any_step(states[i], #[trigger] states[i + 1]),
    ensures
        forall|owner: u32|
            owner != 0 ==> (#[trigger] states.last().k.ipc.find_notification(owner, handle))
                == Err::<int, u64>(abi::SYS_ERR_NOT_FOUND),
{
    let slot = s.k.ipc.find_notification(s.k.task.owner(), handle)->Ok_0;
    let from = s.k.ipc.notifications@[slot].generation;
    assert(s.k.ipc.notifications@[slot].wf());
    let history = notification_history(states, slot);
    assert forall|i: int| 0 <= i < history.len() - 1 implies handle::slot_step(
        history[i],
        #[trigger] history[i + 1],
    ) by {
        let a = states[i];
        let b = states[i + 1];
        assert(any_step(a, b));
        lemma_free_notification(a.k.ipc, 0);
        if exists|owner: u32| owner != 0 && b.k.ipc == #[trigger] a.k.ipc.without_owner(owner) {
            let owner = choose|owner: u32|
                owner != 0 && b.k.ipc == #[trigger] a.k.ipc.without_owner(owner);
            let f = Ipc::drop_notification(owner);
            crate::util::lemma_mapped(a.k.ipc.notifications, f, 32);
            assert(b.k.ipc.notifications@[slot] == f(a.k.ipc.notifications@[slot]));
        } else if b.k.ipc == a.k.ipc.renewed() {
            let f = Ipc::notification_renewed();
            crate::util::lemma_mapped(a.k.ipc.notifications, f, 32);
            assert(b.k.ipc.notifications@[slot] == f(a.k.ipc.notifications@[slot]));
        } else if b == a.notification_create().0 {
        } else if a.k.task.owner() != 0 && exists|h: u64|
            b == (#[trigger] a.notification_destroy(h)).0 {
            let h = choose|h: u64| b == (#[trigger] a.notification_destroy(h)).0;
            if let Ok(gone) = a.k.ipc.find_notification(a.k.task.owner(), h) {
                assert(gone == slot || b.k.ipc.notifications@[slot]
                    == a.k.ipc.notifications@[slot]);
            }
        } else {
            assert(b.k.ipc.notifications@[slot].generation
                == a.k.ipc.notifications@[slot].generation);
        }
    }
    handle::law_handle_stays_stale(from, history, history.len() - 1);
}

/// A value that no notification can have as its handle is never valid: no place, a place beyond
/// the table, or no generation.
pub proof fn law_malformed_is_no_notification(ipc: Ipc, owner: u32, handle: u64)
    requires
        handle as int % 0x1_0000_0000 == 0 || handle as int % 0x1_0000_0000 > 32 || handle as int
            / 0x1_0000_0000 == 0,
    ensures
        ipc.find_notification(owner, handle) == Err::<int, u64>(abi::SYS_ERR_INVALID),
{
}

/// Whether a reply right is out, and under which generation.
pub open spec fn right_use(reply: Reply) -> SlotUse {
    SlotUse { used: reply.owner != 0, generation: reply.generation }
}

/// Each reply right is handed out, left or emptied under its generation, or it is used up and has
/// moved on to the next one.
pub open spec fn right_step(a: Ipc, b: Ipc) -> bool {
    forall|i: int|
        0 <= i < 16 ==> handle::slot_step(
            right_use(a.replies@[i]),
            right_use(#[trigger] b.replies@[i]),
        )
}

/// What became of a reply right's slot, state by state.
pub open spec fn right_history(states: Seq<MachineView>, slot: int) -> Seq<SlotUse> {
    Seq::new(states.len(), |i: int| right_use(states[i].k.ipc.replies@[slot]))
}

/// Handing a reply right out leaves its generation, and using one moves it on.
pub proof fn law_rights_move_on(
    s: MachineView,
    cx: Entry,
    caller: u8,
    server: u8,
    endpoint: u8,
    handle: u64,
)
    requires
        s.wf(),
        cx.cpu < 4,
        caller < 16,
        server < 16,
        endpoint < 16,
        s.k.task.owner() != 0,
    ensures
        right_step(s.k.ipc, s.allocate_reply(cx, caller, server, endpoint).0.k.ipc),
        right_step(s.k.ipc, s.answer(cx, handle).0.k.ipc),
        s.k.ipc.find_reply(s.k.task.owner(), s.current(cx), handle) matches Ok(slot) ==> s.answer(
            cx,
            handle,
        ).0.k.ipc.replies@[slot] == Reply::unused(
            generation_after(s.k.ipc.replies@[slot].generation),
        ),
{
    if let Some(slot) = s.k.ipc.free_reply(0) {
        scheduling::lemma_free_reply(s, 0);
        let generation = s.k.ipc.replies@[slot].generation;
        let t = s.with_ipc(
            s.k.ipc.with_reply(
                slot,
                Reply { owner: s.k.task.owner(), generation, caller, server, endpoint },
            ),
        );
        assert(s.k.ipc.replies@[slot].wf());
        assert forall|i: int| 0 <= i < 16 implies (#[trigger] t.k.ipc.replies@[i]).wf() by {
            assert(s.k.ipc.replies@[i].wf());
        }
        stillness::lemma_recompute(t, cx);
    }
    if let Ok(slot) = s.k.ipc.find_reply(s.k.task.owner(), s.current(cx), handle) {
        let reply = s.k.ipc.replies@[slot];
        assert(reply.wf());
        let written = s.write_message(reply.caller as int, cx.message);
        stillness::lemma_wake(written, cx, reply.caller as int, 0);
        let t = written.wake(cx, reply.caller as int, 0);
        handle::law_generation_moves(reply.generation);
        let u = t.with_ipc(
            t.k.ipc.with_reply(slot, Reply::unused(generation_after(reply.generation))),
        );
        assert forall|i: int| 0 <= i < 16 implies (#[trigger] u.k.ipc.replies@[i]).wf() by {
            assert(s.k.ipc.replies@[i].wf());
        }
        stillness::lemma_recompute(u, cx);
    }
}

/// A reply right that was used stays spent through whatever follows, also when its place is used
/// for other calls, as long as that is less often than there are generations.
pub proof fn law_spent_right_stays_spent(
    s: MachineView,
    cx: Entry,
    handle: u64,
    states: Seq<MachineView>,
)
    requires
        s.wf(),
        cx.cpu < 4,
        s.k.task.owner() != 0,
        s.k.ipc.find_reply(s.k.task.owner(), s.current(cx), handle) is Ok,
        0 < states.len(),
        handle::times_taken(
            right_history(states, handle::slot_of(handle)),
            states.len() - 1,
        ) < MAX_GENERATION,
        states[0] == s.answer(cx, handle).0,
        forall|i: int|
            0 <= i < states.len() - 1 ==> right_step(
                states[i].k.ipc,
                (#[trigger] states[i + 1]).k.ipc,
            ),
    ensures
        forall|owner: u32, server: u8|
            owner != 0 ==> (#[trigger] states.last().k.ipc.find_reply(owner, server, handle))
                == Err::<int, u64>(abi::SYS_ERR_NOT_FOUND),
{
    let slot = s.k.ipc.find_reply(s.k.task.owner(), s.current(cx), handle)->Ok_0;
    let from = s.k.ipc.replies@[slot].generation;
    assert(s.k.ipc.replies@[slot].wf());
    law_rights_move_on(s, cx, 0, 0, 0, handle);
    let history = right_history(states, slot);
    assert forall|i: int| 0 <= i < history.len() - 1 implies handle::slot_step(
        history[i],
        #[trigger] history[i + 1],
    ) by {
        assert(right_step(states[i].k.ipc, states[i + 1].k.ipc));
        assert(right_use(states[i + 1].k.ipc.replies@[slot]) == history[i + 1]);
    }
    handle::law_handle_stays_stale(from, history, history.len() - 1);
}

} // verus!
