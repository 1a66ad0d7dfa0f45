//! Synchronous messages through endpoints, one-time replies, and asynchronous notifications.
use crate::abi;
use crate::abi::{IpcMessage, ReplyHandle};
use crate::handle::{decode_handle, make_handle, next_generation};
use crate::machine::{Dispatch, Entry, Machine, MachineView};
use crate::object::task;
use crate::object::thread::{self, Thread, ThreadState, ThreadTable};
use crate::scheduler::priority;
use crate::syscall::dispatch::TrapFrame;
use crate::util::ArrayUpdate;
use vstd::prelude::*;

verus! {

pub const MAX_ENDPOINTS: usize = 16;

pub const MAX_NOTIFICATIONS: usize = 32;

pub const MAX_REPLIES: usize = 16;

pub const MAX_WAITERS: usize = 16;

/// Thread slots in the order in which they began to wait.
#[derive(Clone, Copy)]
#[verifier::ext_equal]
pub struct WaitQueue {
    pub slots: [u8; 16],
    pub count: usize,
}

/// A thread that waits to hand over a message.
#[derive(Clone, Copy)]
#[verifier::ext_equal]
pub struct PendingSender {
    pub slot: u8,
    pub is_call: bool,
    pub message: IpcMessage,
}

#[derive(Clone, Copy)]
#[verifier::ext_equal]
pub struct Endpoint {
    pub owner: u32,
    pub generation: u32,
    pub receivers: WaitQueue,
    pub senders: [PendingSender; 16],
    pub sender_count: usize,
}

#[derive(Clone, Copy)]
#[verifier::ext_equal]
pub struct Notification {
    pub owner: u32,
    pub generation: u32,
    /// Badges that were signalled and not yet delivered.
    pub pending: u64,
    pub waiters: WaitQueue,
}

/// The right to answer one call.
#[derive(Clone, Copy, Debug, PartialEq, Eq, Structural)]
pub struct Reply {
    pub owner: u32,
    pub generation: u32,
    pub caller: u8,
    pub server: u8,
    /// The endpoint that the call went through.
    pub endpoint: u8,
}

#[derive(Clone, Copy)]
#[verifier::ext_equal]
pub struct Ipc {
    pub endpoints: [Endpoint; 16],
    pub notifications: [Notification; 32],
    pub replies: [Reply; 16],
}

impl WaitQueue {
    pub open spec fn wf(self) -> bool {
        &&& self.count <= 16
        &&& forall|i: int| 0 <= i < self.count ==> (#[trigger] self.slots@[i]) < 16
        &&& forall|i: int, j: int|
            0 <= i < j < self.count ==> #[trigger] self.slots@[i] != #[trigger] self.slots@[j]
    }

    pub open spec fn none() -> WaitQueue {
        WaitQueue { slots: crate::util::filled(0), count: 0 }
    }

    /// The waiting thread slots, the first to be served in front.
    pub open spec fn waiting(self) -> Seq<u8> {
        self.slots@.take(self.count as int)
    }

    /// The place of `slot` in the queue, at `from` or later.
    pub open spec fn place_of(self, slot: u8, from: int) -> Option<int>
        decreases self.count - from,
    {
        if from < 0 || from >= self.count {
            None
        } else if self.slots@[from] == slot {
            Some(from)
        } else {
            self.place_of(slot, from + 1)
        }
    }

    /// The queue accepts `slot`: it has room and the slot does not wait already.
    pub open spec fn accepts(self, slot: u8) -> bool {
        self.count < 16 && self.place_of(slot, 0) is None
    }

    pub open spec fn pushed(self, slot: u8) -> WaitQueue {
        WaitQueue {
            slots: self.slots.upd(self.count as int, slot),
            count: (self.count + 1) as usize,
        }
    }

    pub open spec fn popped(self) -> WaitQueue {
        WaitQueue {
            slots: crate::util::shifted(self.slots, self.count as int),
            count: (self.count - 1) as usize,
        }
    }

    /// The queue without `slot`; the last waiter takes its place.
    pub open spec fn removed(self, slot: u8) -> WaitQueue {
        match self.place_of(slot, 0) {
            None => self,
            Some(i) => WaitQueue {
                slots: self.slots.upd(i, self.slots@[self.count - 1]),
                count: (self.count - 1) as usize,
            },
        }
    }

    fn empty() -> (r: WaitQueue)
        ensures
            r == WaitQueue::none(),
            r.wf(),
    {
        WaitQueue { slots: [0u8; 16], count: 0 }
    }

    /// Adds a thread at the end. Refuses when it waits already or the queue is full.
    pub fn push(&mut self, slot: usize) -> (r: bool)
        requires
            old(self).wf(),
            slot < 16,
        ensures
            r == old(self).accepts(slot as u8),
            *final(self) == if r {
                old(self).pushed(slot as u8)
            } else {
                *old(self)
            },
            final(self).wf(),
    {
        if self.count == MAX_WAITERS {
            return false;
        }
        let mut index: usize = 0;
        while index < self.count
            invariant
                *self == *old(self),
                self.wf(),
                self.count < 16,
                index <= self.count,
                slot < 16,
                self.place_of(slot as u8, 0) == self.place_of(slot as u8, index as int),
                forall|i: int| 0 <= i < index ==> self.slots@[i] != slot,
            decreases self.count - index,
        {
            if self.slots[index] == slot as u8 {
                return false;
            }
            index = index + 1;
        }
        let place: usize = self.count;
        self.slots[place] = slot as u8;
        self.count = place + 1;
        true
    }

    /// Takes the first waiting thread.
    pub fn pop(&mut self) -> (r: Option<usize>)
        requires
            old(self).wf(),
        ensures
            match r {
                Some(slot) => slot < 16 && old(self).count > 0 && slot == old(self).slots@[0]
                    && *final(self) == old(self).popped(),
                None => old(self).count == 0 && *final(self) == *old(self),
            },
            final(self).wf(),
    {
        if self.count == 0 {
            return None;
        }
        let slot: usize = self.slots[0] as usize;
        let mut index: usize = 1;
        while index < self.count
            invariant
                old(self).wf(),
                1 <= index <= self.count,
                self.count == old(self).count,
                self.slots == crate::util::shifted(old(self).slots, index as int),
            decreases self.count - index,
        {
            proof {
                crate::util::lemma_shifted(old(self).slots, index as int);
            }
            self.slots[index - 1] = self.slots[index];
            index = index + 1;
        }
        self.count = self.count - 1;
        proof {
            crate::util::lemma_shifted(old(self).slots, old(self).count as int);
        }
        Some(slot)
    }

    /// Takes a thread out of the queue, wherever it waits.
    pub fn remove(&mut self, slot: usize)
        requires
            old(self).wf(),
            slot < 16,
        ensures
            *final(self) == old(self).removed(slot as u8),
            final(self).wf(),
    {
        let mut index: usize = 0;
        while index < self.count
            invariant
                *self == *old(self),
                self.wf(),
                slot < 16,
                index <= self.count,
                self.place_of(slot as u8, 0) == self.place_of(slot as u8, index as int),
            decreases self.count - index,
        {
            if self.slots[index] as usize == slot {
                let last: usize = self.count - 1;
                self.count = last;
                self.slots[index] = self.slots[last];
                return;
            }
            index = index + 1;
        }
    }
}

proof fn lemma_place_of(q: WaitQueue, slot: u8, from: int)
    requires
        0 <= from,
        q.count <= 16,
    ensures
        match q.place_of(slot, from) {
            Some(i) => from <= i < q.count && q.slots@[i] == slot && forall|j: int|
                from <= j < i ==> q.slots@[j] != slot,
            None => forall|j: int| from <= j < q.count ==> q.slots@[j] != slot,
        },
    decreases q.count - from,
{
    if from < q.count && q.slots@[from] != slot {
        lemma_place_of(q, slot, from + 1);
    }
}

/// Waiting threads are served in the order in which they came, and none waits twice.
pub proof fn law_queue_is_fifo(q: WaitQueue, slot: u8)
    requires
        q.wf(),
    ensures
        q.accepts(slot) <==> q.count < 16 && !q.waiting().contains(slot),
        q.accepts(slot) ==> q.pushed(slot).waiting() == q.waiting().push(slot),
        q.count > 0 ==> q.slots@[0] == q.waiting().first() && q.popped().waiting()
            == q.waiting().drop_first(),
        q.waiting().no_duplicates(),
{
    lemma_place_of(q, slot, 0);
    crate::util::lemma_shifted(q.slots, q.count as int);
    if q.waiting().contains(slot) {
        let i = choose|i: int| 0 <= i < q.waiting().len() && q.waiting()[i] == slot;
        assert(q.slots@[i] == slot);
    } else {
        assert forall|j: int| 0 <= j < q.count implies q.slots@[j] != slot by {
            assert(q.waiting()[j] == q.slots@[j]);
        }
    }
    if q.accepts(slot) {
        assert(q.pushed(slot).waiting() =~= q.waiting().push(slot));
    }
    if q.count > 0 {
        assert(q.popped().waiting() =~= q.waiting().drop_first());
    }
}

/// A thread that was taken out of a queue no longer waits in it; every other one still does.
pub proof fn law_removed_waits_no_more(q: WaitQueue, slot: u8, other: u8)
    requires
        q.wf(),
    ensures
        !q.removed(slot).waiting().contains(slot),
        other != slot ==> (q.removed(slot).waiting().contains(other) <==> q.waiting().contains(
            other,
        )),
{
    lemma_place_of(q, slot, 0);
    let r = q.removed(slot);
    assert(forall|j: int| 0 <= j < r.count ==> r.waiting()[j] == r.slots@[j]);
    assert(forall|j: int| 0 <= j < q.count ==> q.waiting()[j] == q.slots@[j]);
    if let Some(i) = q.place_of(slot, 0) {
        if other != slot && q.waiting().contains(other) {
            let j = choose|j: int| 0 <= j < q.waiting().len() && q.waiting()[j] == other;
            if j == q.count - 1 {
                assert(r.waiting()[i] == other);
            } else {
                assert(r.waiting()[j] == other);
            }
        }
        if other != slot && r.waiting().contains(other) {
            let j = choose|j: int| 0 <= j < r.waiting().len() && r.waiting()[j] == other;
            if j == i {
                assert(q.waiting()[q.count - 1] == other);
            } else {
                assert(q.waiting()[j] == other);
            }
        }
    }
}

impl PendingSender {
    pub open spec fn none() -> PendingSender {
        PendingSender {
            slot: 0xff,
            is_call: false,
            message: IpcMessage { label: 0, words: crate::util::filled(0), reply: ReplyHandle(0) },
        }
    }
}

impl Endpoint {
    pub open spec fn wf(self) -> bool {
        &&& crate::handle::generation_ok(self.generation)
        &&& self.receivers.wf()
        &&& self.sender_count <= 16
        &&& forall|i: int| 0 <= i < self.sender_count ==> (#[trigger] self.senders@[i]).slot < 16
    }

    pub open spec fn unused(generation: u32) -> Endpoint {
        Endpoint {
            owner: 0,
            generation,
            receivers: WaitQueue::none(),
            senders: crate::util::filled(PendingSender::none()),
            sender_count: 0,
        }
    }

    /// The waiting senders, the first to be served in front.
    pub open spec fn sending(self) -> Seq<PendingSender> {
        self.senders@.take(self.sender_count as int)
    }

    pub open spec fn with_sender(self, sender: PendingSender) -> Endpoint {
        Endpoint {
            senders: self.senders.upd(self.sender_count as int, sender),
            sender_count: (self.sender_count + 1) as usize,
            ..self
        }
    }

    pub open spec fn without_first_sender(self) -> Endpoint {
        Endpoint {
            senders: crate::util::shifted(self.senders, self.sender_count as int),
            sender_count: (self.sender_count - 1) as usize,
            ..self
        }
    }

    /// The endpoint after the senders from place `from` on that are thread `slot` were dropped;
    /// the last sender takes a dropped one's place.
    pub open spec fn without_sender(self, slot: u8, from: int) -> Endpoint
        decreases self.sender_count - from,
    {
        if from < 0 || from >= self.sender_count || self.sender_count > 16 {
            self
        } else if self.senders@[from].slot == slot {
            Endpoint {
                senders: self.senders.upd(from, self.senders@[self.sender_count - 1]),
                sender_count: (self.sender_count - 1) as usize,
                ..self
            }.without_sender(slot, from)
        } else {
            self.without_sender(slot, from + 1)
        }
    }

    /// The endpoint once thread `slot` neither sends nor receives through it.
    pub open spec fn forgetting(self, slot: u8) -> Endpoint {
        (Endpoint { receivers: self.receivers.removed(slot), ..self }).without_sender(slot, 0)
    }

    fn empty(generation: u32) -> (r: Endpoint)
        ensures
            r == Endpoint::unused(generation),
            crate::handle::generation_ok(generation) ==> r.wf(),
    {
        let none = PendingSender {
            slot: 0xff,
            is_call: false,
            message: IpcMessage { label: 0, words: [0u64; 4], reply: ReplyHandle(0) },
        };
        Endpoint {
            owner: 0,
            generation,
            receivers: WaitQueue::empty(),
            senders: [none; 16],
            sender_count: 0,
        }
    }

    fn push_sender(&mut self, sender: PendingSender) -> (r: bool)
        requires
            old(self).wf(),
            sender.slot < 16,
        ensures
            r == (old(self).sender_count < 16),
            *final(self) == if r {
                old(self).with_sender(sender)
            } else {
                *old(self)
            },
            final(self).wf(),
    {
        if self.sender_count == MAX_WAITERS {
            return false;
        }
        let place: usize = self.sender_count;
        self.senders[place] = sender;
        self.sender_count = place + 1;
        true
    }

    fn pop_sender(&mut self) -> (r: Option<PendingSender>)
        requires
            old(self).wf(),
        ensures
            match r {
                Some(sender) => old(self).sender_count > 0 && sender == old(self).senders@[0]
                    && sender.slot < 16 && *final(self) == old(self).without_first_sender(),
                None => old(self).sender_count == 0 && *final(self) == *old(self),
            },
            final(self).wf(),
    {
        if self.sender_count == 0 {
            return None;
        }
        let sender: PendingSender = self.senders[0];
        let mut index: usize = 1;
        while index < self.sender_count
            invariant
                old(self).wf(),
                1 <= index <= self.sender_count,
                self.sender_count == old(self).sender_count,
                self.owner == old(self).owner,
                self.generation == old(self).generation,
                self.receivers == old(self).receivers,
                self.senders == crate::util::shifted(old(self).senders, index as int),
            decreases self.sender_count - index,
        {
            proof {
                crate::util::lemma_shifted(old(self).senders, index as int);
            }
            self.senders[index - 1] = self.senders[index];
            index = index + 1;
        }
        self.sender_count = self.sender_count - 1;
        proof {
            crate::util::lemma_shifted(old(self).senders, old(self).sender_count as int);
        }
        Some(sender)
    }

    /// Drops thread `slot` from both sides of the endpoint.
    fn forget(&mut self, slot: usize)
        requires
            old(self).wf(),
            slot < 16,
        ensures
            *final(self) == old(self).forgetting(slot as u8),
            final(self).wf(),
    {
        self.receivers.remove(slot);
        let ghost start = *self;
        let mut index: usize = 0;
        while index < self.sender_count
            invariant
                self.wf(),
                slot < 16,
                index <= self.sender_count,
                start.without_sender(slot as u8, 0) == self.without_sender(
                    slot as u8,
                    index as int,
                ),
            decreases self.sender_count - index,
        {
            if self.senders[index].slot as usize == slot {
                let last: usize = self.sender_count - 1;
                self.sender_count = last;
                self.senders[index] = self.senders[last];
            } else {
                index = index + 1;
            }
        }
    }
}

/// Senders are served in the order in which they came.
pub proof fn law_senders_are_fifo(e: Endpoint, sender: PendingSender)
    requires
        e.wf(),
    ensures
        e.sender_count < 16 ==> e.with_sender(sender).sending() == e.sending().push(sender),
        e.sender_count > 0 ==> e.senders@[0] == e.sending().first()
            && e.without_first_sender().sending() == e.sending().drop_first(),
{
    crate::util::lemma_shifted(e.senders, e.sender_count as int);
    if e.sender_count < 16 {
        assert(e.with_sender(sender).sending() =~= e.sending().push(sender));
    }
    if e.sender_count > 0 {
        assert(e.without_first_sender().sending() =~= e.sending().drop_first());
    }
}

impl Notification {
    pub open spec fn wf(self) -> bool {
        crate::handle::generation_ok(self.generation) && self.waiters.wf()
    }
}

impl Reply {
    pub open spec fn wf(self) -> bool {
        &&& crate::handle::generation_ok(self.generation)
        &&& (self.caller < 16 && self.server < 16 && self.endpoint < 16) || (self.owner == 0
            && self.server == 0xff)
    }
}

impl Ipc {
    pub open spec fn wf(self) -> bool {
        &&& forall|i: int| 0 <= i < 16 ==> (#[trigger] self.endpoints@[i]).wf()
        &&& forall|i: int| 0 <= i < 32 ==> (#[trigger] self.notifications@[i]).wf()
        &&& forall|i: int| 0 <= i < 16 ==> (#[trigger] self.replies@[i]).wf()
    }
}

impl Notification {
    pub open spec fn unused(generation: u32) -> Notification {
        Notification { owner: 0, generation, pending: 0, waiters: WaitQueue::none() }
    }

    fn empty(generation: u32) -> (r: Notification)
        ensures
            r == Notification::unused(generation),
            crate::handle::generation_ok(generation) ==> r.wf(),
    {
        Notification { owner: 0, generation, pending: 0, waiters: WaitQueue::empty() }
    }
}

impl Reply {
    pub open spec fn unused(generation: u32) -> Reply {
        Reply { owner: 0, generation, caller: 0xff, server: 0xff, endpoint: 0xff }
    }

    fn empty(generation: u32) -> (r: Reply)
        ensures
            r == Reply::unused(generation),
    {
        Reply { owner: 0, generation, caller: 0xff, server: 0xff, endpoint: 0xff }
    }
}

impl Ipc {
    pub open spec fn with_endpoint(self, slot: int, endpoint: Endpoint) -> Ipc {
        Ipc { endpoints: self.endpoints.upd(slot, endpoint), ..self }
    }

    pub open spec fn with_notification(self, slot: int, notification: Notification) -> Ipc {
        Ipc { notifications: self.notifications.upd(slot, notification), ..self }
    }

    pub open spec fn with_reply(self, slot: int, reply: Reply) -> Ipc {
        Ipc { replies: self.replies.upd(slot, reply), ..self }
    }

    /// The endpoint of `owner` that `handle` names.
    pub open spec fn find_endpoint(self, owner: u32, handle: u64) -> Result<int, u64> {
        match crate::handle::decoded(handle, 16) {
            None => Err(abi::SYS_ERR_INVALID),
            Some(found) => if self.endpoints@[found.0].owner != owner
                || self.endpoints@[found.0].generation != found.1 {
                Err(abi::SYS_ERR_NOT_FOUND)
            } else {
                Ok(found.0)
            },
        }
    }

    /// The notification of `owner` that `handle` names.
    pub open spec fn find_notification(self, owner: u32, handle: u64) -> Result<int, u64> {
        match crate::handle::decoded(handle, 32) {
            None => Err(abi::SYS_ERR_INVALID),
            Some(found) => if self.notifications@[found.0].owner != owner
                || self.notifications@[found.0].generation != found.1 {
                Err(abi::SYS_ERR_NOT_FOUND)
            } else {
                Ok(found.0)
            },
        }
    }

    /// The reply right of `owner` that `handle` names, held by thread `server`.
    pub open spec fn find_reply(self, owner: u32, server: u8, handle: u64) -> Result<int, u64> {
        match crate::handle::decoded(handle, 16) {
            None => Err(abi::SYS_ERR_INVALID),
            Some(found) => {
                let reply = self.replies@[found.0];
                if reply.owner != owner || reply.generation != found.1 || reply.server != server {
                    Err(abi::SYS_ERR_NOT_FOUND)
                } else {
                    Ok(found.0)
                }
            },
        }
    }

    /// The first unused endpoint at place `from` or later.
    pub open spec fn free_endpoint(self, from: int) -> Option<int>
        decreases 16 - from,
    {
        if from < 0 || from >= 16 {
            None
        } else if self.endpoints@[from].owner == 0 {
            Some(from)
        } else {
            self.free_endpoint(from + 1)
        }
    }

    pub open spec fn free_notification(self, from: int) -> Option<int>
        decreases 32 - from,
    {
        if from < 0 || from >= 32 {
            None
        } else if self.notifications@[from].owner == 0 {
            Some(from)
        } else {
            self.free_notification(from + 1)
        }
    }

    pub open spec fn free_reply(self, from: int) -> Option<int>
        decreases 16 - from,
    {
        if from < 0 || from >= 16 {
            None
        } else if self.replies@[from].owner == 0 {
            Some(from)
        } else {
            self.free_reply(from + 1)
        }
    }

    /// A call that went through endpoint `slot` is still unanswered.
    pub open spec fn has_open_call(self, slot: int) -> bool {
        exists|i: int|
            0 <= i < 16 && (#[trigger] self.replies@[i]).owner != 0 && self.replies@[i].endpoint
                == slot
    }

    /// What each table entry becomes when the objects of `owner` go.
    pub open spec fn drop_endpoint(owner: u32) -> spec_fn(Endpoint) -> Endpoint {
        |e: Endpoint|
            if e.owner == owner {
                Endpoint::unused(crate::handle::generation_after(e.generation))
            } else {
                e
            }
    }

    pub open spec fn drop_notification(owner: u32) -> spec_fn(Notification) -> Notification {
        |n: Notification|
            if n.owner == owner {
                Notification::unused(crate::handle::generation_after(n.generation))
            } else {
                n
            }
    }

    pub open spec fn drop_reply(owner: u32) -> spec_fn(Reply) -> Reply {
        |r: Reply|
            if r.owner == owner {
                Reply::unused(crate::handle::generation_after(r.generation))
            } else {
                r
            }
    }

    /// The tables without the objects of `owner`; every handle to them is stale.
    pub open spec fn without_owner(self, owner: u32) -> Ipc {
        Ipc {
            endpoints: crate::util::mapped(self.endpoints, Ipc::drop_endpoint(owner), 16),
            notifications: crate::util::mapped(
                self.notifications,
                Ipc::drop_notification(owner),
                32,
            ),
            replies: crate::util::mapped(self.replies, Ipc::drop_reply(owner), 16),
        }
    }
}

pub fn empty_ipc() -> (r: Ipc)
    ensures
        r.wf(),
        forall|i: int| 0 <= i < 16 ==> r.endpoints@[i] == Endpoint::unused(1),
        forall|i: int| 0 <= i < 32 ==> r.notifications@[i] == Notification::unused(1),
        forall|i: int| 0 <= i < 16 ==> r.replies@[i] == Reply::unused(1),
{
    let endpoint: Endpoint = Endpoint::empty(1);
    let notification: Notification = Notification::empty(1);
    let reply: Reply = Reply::empty(1);
    Ipc { endpoints: [endpoint; 16], notifications: [notification; 32], replies: [reply; 16] }
}

impl Ipc {
    pub open spec fn endpoint_renewed() -> spec_fn(Endpoint) -> Endpoint {
        |e: Endpoint| Endpoint::unused(e.generation)
    }

    pub open spec fn notification_renewed() -> spec_fn(Notification) -> Notification {
        |n: Notification| Notification::unused(n.generation)
    }

    pub open spec fn reply_renewed() -> spec_fn(Reply) -> Reply {
        |r: Reply| Reply::unused(r.generation)
    }

    /// Every object is unused; generations stay.
    pub open spec fn renewed(self) -> Ipc {
        Ipc {
            endpoints: crate::util::mapped(self.endpoints, Ipc::endpoint_renewed(), 16),
            notifications: crate::util::mapped(
                self.notifications,
                Ipc::notification_renewed(),
                32,
            ),
            replies: crate::util::mapped(self.replies, Ipc::reply_renewed(), 16),
        }
    }
}

/// Empties every table and keeps the generations, so that old handles stay stale.
pub fn init(ipc: &mut Ipc)
    requires
        old(ipc).wf(),
    ensures
        *final(ipc) == old(ipc).renewed(),
        final(ipc).wf(),
{
    let mut slot: usize = 0;
    while slot < MAX_ENDPOINTS
        invariant
            slot <= 16,
            old(ipc).wf(),
            ipc.notifications == old(ipc).notifications,
            ipc.replies == old(ipc).replies,
            forall|i: int|
                0 <= i < 16 ==> ipc.endpoints@[i] == if i < slot {
                    Endpoint::unused(old(ipc).endpoints@[i].generation)
                } else {
                    old(ipc).endpoints@[i]
                },
        decreases 16 - slot,
    {
        let generation: u32 = ipc.endpoints[slot].generation;
        ipc.endpoints[slot] = Endpoint::empty(generation);
        slot = slot + 1;
    }
    slot = 0;
    while slot < MAX_NOTIFICATIONS
        invariant
            slot <= 32,
            old(ipc).wf(),
            ipc.replies == old(ipc).replies,
            forall|i: int|
                0 <= i < 16 ==> ipc.endpoints@[i] == Endpoint::unused(
                    old(ipc).endpoints@[i].generation,
                ),
            forall|i: int|
                0 <= i < 32 ==> ipc.notifications@[i] == if i < slot {
                    Notification::unused(old(ipc).notifications@[i].generation)
                } else {
                    old(ipc).notifications@[i]
                },
        decreases 32 - slot,
    {
        let generation: u32 = ipc.notifications[slot].generation;
        ipc.notifications[slot] = Notification::empty(generation);
        slot = slot + 1;
    }
    slot = 0;
    while slot < MAX_REPLIES
        invariant
            slot <= 16,
            old(ipc).wf(),
            forall|i: int|
                0 <= i < 16 ==> ipc.endpoints@[i] == Endpoint::unused(
                    old(ipc).endpoints@[i].generation,
                ),
            forall|i: int|
                0 <= i < 32 ==> ipc.notifications@[i] == Notification::unused(
                    old(ipc).notifications@[i].generation,
                ),
            forall|i: int|
                0 <= i < 16 ==> ipc.replies@[i] == if i < slot {
                    Reply::unused(old(ipc).replies@[i].generation)
                } else {
                    old(ipc).replies@[i]
                },
        decreases 16 - slot,
    {
        let generation: u32 = ipc.replies[slot].generation;
        ipc.replies[slot] = Reply::empty(generation);
        slot = slot + 1;
    }
    proof {
        assert forall|i: int| 0 <= i < 16 implies (#[trigger] ipc.endpoints@[i]).wf() by {
            assert(old(ipc).endpoints@[i].wf());
        }
        assert forall|i: int| 0 <= i < 32 implies (#[trigger] ipc.notifications@[i]).wf() by {
            assert(old(ipc).notifications@[i].wf());
        }
        assert forall|i: int| 0 <= i < 16 implies (#[trigger] ipc.replies@[i]).wf() by {
            assert(old(ipc).replies@[i].wf());
        }
        crate::util::lemma_mapped(old(ipc).endpoints, Ipc::endpoint_renewed(), 16);
        crate::util::lemma_mapped(old(ipc).notifications, Ipc::notification_renewed(), 32);
        crate::util::lemma_mapped(old(ipc).replies, Ipc::reply_renewed(), 16);
        assert(ipc.endpoints =~= old(ipc).renewed().endpoints);
        assert(ipc.notifications =~= old(ipc).renewed().notifications);
        assert(ipc.replies =~= old(ipc).renewed().replies);
    }
}

fn endpoint_slot(ipc: &Ipc, owner: u32, handle: u64) -> (r: Result<usize, u64>)
    ensures
        match r {
            Ok(slot) => slot < 16 && ipc.find_endpoint(owner, handle) == Ok::<int, u64>(
                slot as int,
            ),
            Err(error) => ipc.find_endpoint(owner, handle) == Err::<int, u64>(error),
        },
{
    match decode_handle(handle, MAX_ENDPOINTS) {
        None => Err(abi::SYS_ERR_INVALID),
        Some(found) => {
            let endpoint: &Endpoint = &ipc.endpoints[found.0];
            if endpoint.owner != owner || endpoint.generation != found.1 {
                return Err(abi::SYS_ERR_NOT_FOUND);
            }
            Ok(found.0)
        },
    }
}

fn notification_slot(ipc: &Ipc, owner: u32, handle: u64) -> (r: Result<usize, u64>)
    ensures
        match r {
            Ok(slot) => slot < 32 && ipc.find_notification(owner, handle) == Ok::<int, u64>(
                slot as int,
            ),
            Err(error) => ipc.find_notification(owner, handle) == Err::<int, u64>(error),
        },
{
    match decode_handle(handle, MAX_NOTIFICATIONS) {
        None => Err(abi::SYS_ERR_INVALID),
        Some(found) => {
            let notification: &Notification = &ipc.notifications[found.0];
            if notification.owner != owner || notification.generation != found.1 {
                return Err(abi::SYS_ERR_NOT_FOUND);
            }
            Ok(found.0)
        },
    }
}

/// Whether `handle` names a notification of the current owner.
pub fn notification_valid(m: &Machine, handle: u64) -> (r: bool)
    ensures
        r == (m@.k.ipc.find_notification(m@.k.task.owner(), handle) is Ok),
{
    notification_slot(&m.k.ipc, task::current_owner(&m.k.task), handle).is_ok()
}

impl MachineView {
    /// The current owner gets the first unused endpoint.
    pub open spec fn endpoint_create(self) -> (MachineView, u64) {
        match self.k.ipc.free_endpoint(0) {
            None => (self, abi::SYS_ERR_NO_SLOT),
            Some(slot) => {
                let generation = self.k.ipc.endpoints@[slot].generation;
                (
                    self.with_endpoint(
                        slot,
                        Endpoint { owner: self.k.task.owner(), ..Endpoint::unused(generation) },
                    ),
                    crate::handle::handle_of(slot, generation) as u64,
                )
            },
        }
    }

    /// An idle endpoint becomes unused, under the next generation.
    pub open spec fn endpoint_destroy(self, handle: u64) -> (MachineView, u64) {
        match self.k.ipc.find_endpoint(self.k.task.owner(), handle) {
            Err(error) => (self, error),
            Ok(slot) => {
                let endpoint = self.k.ipc.endpoints@[slot];
                if endpoint.sender_count != 0 || endpoint.receivers.count != 0
                    || self.k.ipc.has_open_call(slot) {
                    (self, abi::SYS_ERR_BUSY)
                } else {
                    (
                        self.with_endpoint(
                            slot,
                            Endpoint::unused(
                                crate::handle::generation_after(endpoint.generation),
                            ),
                        ),
                        0,
                    )
                }
            },
        }
    }

    /// The current owner gets the first unused notification.
    pub open spec fn notification_create(self) -> (MachineView, u64) {
        match self.k.ipc.free_notification(0) {
            None => (self, abi::SYS_ERR_NO_SLOT),
            Some(slot) => {
                let generation = self.k.ipc.notifications@[slot].generation;
                (
                    self.with_notification(
                        slot,
                        Notification {
                            owner: self.k.task.owner(),
                            ..Notification::unused(generation)
                        },
                    ),
                    crate::handle::handle_of(slot, generation) as u64,
                )
            },
        }
    }

    /// The pending badges are taken, if there are any.
    pub open spec fn notification_poll(self, handle: u64) -> (MachineView, u64) {
        match self.k.ipc.find_notification(self.k.task.owner(), handle) {
            Err(_) => (self, abi::SYS_ERR_NOT_FOUND),
            Ok(slot) => {
                let notification = self.k.ipc.notifications@[slot];
                if notification.pending == 0 {
                    (self, abi::SYS_ERR_WOULD_BLOCK)
                } else {
                    (
                        self.with_notification(slot, Notification { pending: 0, ..notification }),
                        notification.pending,
                    )
                }
            },
        }
    }

    /// A notification that nothing uses becomes unused, under the next generation.
    pub open spec fn notification_destroy(self, handle: u64) -> (MachineView, u64) {
        match self.k.ipc.find_notification(self.k.task.owner(), handle) {
            Err(_) => (self, abi::SYS_ERR_NOT_FOUND),
            Ok(slot) => {
                let notification = self.k.ipc.notifications@[slot];
                if self.k.task.is_bound(handle) || notification.waiters.count != 0 {
                    (self, abi::SYS_ERR_BUSY)
                } else {
                    (
                        self.with_notification(
                            slot,
                            Notification::unused(
                                crate::handle::generation_after(notification.generation),
                            ),
                        ),
                        0,
                    )
                }
            },
        }
    }
}

/// Takes the first unused endpoint for the current owner; its handle, or NO_SLOT.
pub fn endpoint_create(m: &mut Machine) -> (r: u64)
    requires
        old(m)@.wf(),
    ensures
        (final(m)@, r) == old(m)@.endpoint_create(),
        final(m)@.wf(),
{
    let mut slot: usize = 0;
    while slot < MAX_ENDPOINTS
        invariant
            slot <= 16,
            *m == *old(m),
            m@.wf(),
            m.k.ipc.free_endpoint(0) == m.k.ipc.free_endpoint(slot as int),
        decreases 16 - slot,
    {
        if m.k.ipc.endpoints[slot].owner == 0 {
            assert(m.k.ipc.endpoints@[slot as int].wf());
            let generation: u32 = m.k.ipc.endpoints[slot].generation;
            let mut endpoint: Endpoint = Endpoint::empty(generation);
            endpoint.owner = task::current_owner(&m.k.task);
            m.k.ipc.endpoints[slot] = endpoint;
            return make_handle(slot, generation);
        }
        slot = slot + 1;
    }
    abi::SYS_ERR_NO_SLOT
}

fn has_open_call(ipc: &Ipc, slot: usize) -> (r: bool)
    requires
        slot < 16,
    ensures
        r == ipc.has_open_call(slot as int),
{
    let mut i: usize = 0;
    while i < MAX_REPLIES
        invariant
            i <= 16,
            slot < 16,
            forall|j: int|
                0 <= j < i ==> !((#[trigger] ipc.replies@[j]).owner != 0 && ipc.replies@[j].endpoint
                    == slot),
        decreases 16 - i,
    {
        let reply: Reply = ipc.replies[i];
        if reply.owner != 0 && reply.endpoint as usize == slot {
            assert(ipc.replies@[i as int].owner != 0);
            return true;
        }
        i = i + 1;
    }
    false
}

/// Gives up an idle endpoint and makes its handle stale. Busy while a thread waits on either
/// side or a call through it is unanswered.
pub fn endpoint_destroy(m: &mut Machine, handle: u64) -> (r: u64)
    requires
        old(m)@.wf(),
    ensures
        (final(m)@, r) == old(m)@.endpoint_destroy(handle),
        final(m)@.wf(),
{
    let slot: usize = match endpoint_slot(&m.k.ipc, task::current_owner(&m.k.task), handle) {
        Ok(slot) => slot,
        Err(error) => {
            return error;
        },
    };
    assert(m.k.ipc.endpoints@[slot as int].wf());
    if m.k.ipc.endpoints[slot].sender_count != 0 || m.k.ipc.endpoints[slot].receivers.count != 0 {
        return abi::SYS_ERR_BUSY;
    }
    if has_open_call(&m.k.ipc, slot) {
        return abi::SYS_ERR_BUSY;
    }
    let generation: u32 = m.k.ipc.endpoints[slot].generation;
    m.k.ipc.endpoints[slot] = Endpoint::empty(next_generation(generation));
    0
}

/// A thread whose effective priority is its own.
pub open spec fn uninherited() -> spec_fn(Thread) -> Thread {
    |t: Thread| Thread { effective_priority: t.base_priority, ..t }
}

/// The server of an unanswered call runs at least at the priority of its caller.
pub open spec fn inherit(threads: ThreadTable, reply: Reply) -> ThreadTable {
    let caller = threads.slots@[reply.caller as int];
    let server = threads.slots@[reply.server as int];
    if reply.owner != 0 && caller.effective_priority > server.effective_priority {
        threads.with(
            reply.server as int,
            Thread { effective_priority: caller.effective_priority, ..server },
        )
    } else {
        threads
    }
}

/// One pass over the first `k` reply rights.
pub open spec fn inherit_pass(threads: ThreadTable, replies: [Reply; 16], k: int) -> ThreadTable
    decreases k,
{
    if k <= 0 {
        threads
    } else {
        inherit(inherit_pass(threads, replies, k - 1), replies@[k - 1])
    }
}

/// Passes until nothing changes, at most sixteen.
pub open spec fn inherit_all(threads: ThreadTable, replies: [Reply; 16], pass: int) -> ThreadTable
    decreases 16 - pass,
{
    if pass >= 16 {
        threads
    } else {
        let next = inherit_pass(threads, replies, 16);
        if next == threads {
            threads
        } else {
            inherit_all(next, replies, pass + 1)
        }
    }
}

/// The thread table with every effective priority computed anew.
pub open spec fn inherited(threads: ThreadTable, replies: [Reply; 16]) -> ThreadTable {
    inherit_all(
        ThreadTable { slots: crate::util::mapped(threads.slots, uninherited(), 16), ..threads },
        replies,
        0,
    )
}

impl MachineView {
    /// The scheduler hears of each of the first `k` threads whose priority differs from `before`.
    #[verifier::opaque]
    pub open spec fn announce_priorities(self, cx: Entry, before: ThreadTable, k: int) -> MachineView
        decreases k,
    {
        if k <= 0 {
            self
        } else {
            let s = self.announce_priorities(cx, before, k - 1);
            if before.slots@[k - 1].effective_priority != s.k.threads.slots@[k
                - 1].effective_priority {
                s.priority_changed(cx, k - 1)
            } else {
                s
            }
        }
    }

    /// Inherited priorities are computed anew from the unanswered calls.
    pub open spec fn recompute(self, cx: Entry) -> MachineView {
        self.with_threads(inherited(self.k.threads, self.k.ipc.replies)).announce_priorities(
            cx,
            self.k.threads,
            16,
        )
    }
}

/// One pass over the reply rights; whether any priority rose.
fn inherit_once(threads: &mut ThreadTable, replies: &[Reply; 16]) -> (changed: bool)
    requires
        old(threads).wf(),
        forall|i: int| 0 <= i < 16 ==> (#[trigger] replies@[i]).wf(),
    ensures
        *final(threads) == inherit_pass(*old(threads), *replies, 16),
        changed == (*final(threads) != *old(threads)),
        final(threads).wf(),
        final(threads).current == old(threads).current,
{
    let mut changed: bool = false;
    let mut reply_slot: usize = 0;
    while reply_slot < MAX_REPLIES
        invariant
            reply_slot <= 16,
            threads.wf(),
            threads.current == old(threads).current,
            forall|i: int| 0 <= i < 16 ==> (#[trigger] replies@[i]).wf(),
            *threads == inherit_pass(*old(threads), *replies, reply_slot as int),
            forall|i: int|
                0 <= i < 16 ==> (#[trigger] threads.slots@[i]).effective_priority >= old(
                    threads,
                ).slots@[i].effective_priority,
            changed ==> exists|i: int|
                0 <= i < 16 && (#[trigger] threads.slots@[i]).effective_priority > old(
                    threads,
                ).slots@[i].effective_priority,
            !changed ==> *threads == *old(threads),
        decreases 16 - reply_slot,
    {
        let reply: Reply = replies[reply_slot];
        assert(replies@[reply_slot as int].wf());
        if reply.owner != 0 {
            let caller: usize = reply.caller as usize;
            let server: usize = reply.server as usize;
            let risen: u8 = thread::effective_priority(threads, caller);
            if risen > thread::effective_priority(threads, server) {
                let ghost before = *threads;
                assert(threads.slots@[caller as int].wf());
                assert(threads.slots@[server as int].wf());
                thread::set_effective_priority(threads, server, risen);
                changed = true;
                assert(threads.slots@[server as int].effective_priority > old(
                    threads,
                ).slots@[server as int].effective_priority);
            }
        }
        reply_slot = reply_slot + 1;
    }
    changed
}

/// Computes inherited priorities anew from the calls that are still unanswered, along whole
/// chains of calls, and tells the scheduler of every thread whose priority changed.
pub fn recompute_inherited_priorities(m: &mut Machine, cx: &Entry)
    requires
        old(m)@.wf(),
        cx.cpu < 4,
    ensures
        final(m)@ == old(m)@.recompute(*cx),
        final(m)@.wf(),
        final(m)@.k.threads.current == old(m)@.k.threads.current,
{
    proof {
        reveal(MachineView::announce_priorities);
    }
    let before: ThreadTable = m.k.threads;
    let mut slot: usize = 0;
    while slot < thread::MAX_THREADS
        invariant
            slot <= 16,
            before == old(m)@.k.threads,
            old(m)@.wf(),
            m@.wf(),
            m@ == old(m)@.with_threads(
                ThreadTable {
                    slots: crate::util::mapped(before.slots, uninherited(), slot as int),
                    ..before
                },
            ),
        decreases 16 - slot,
    {
        proof {
            reveal(MachineView::announce_priorities);
        }
        proof {
            crate::util::lemma_mapped(before.slots, uninherited(), slot as int);
            assert(m.k.threads.slots@[slot as int] == before.slots@[slot as int]);
            assert(m.k.threads.slots@[slot as int].wf());
        }
        let own: u8 = thread::base_priority(&m.k.threads, slot);
        thread::set_effective_priority(&mut m.k.threads, slot, own);
        slot = slot + 1;
    }
    let ghost start = m.k.threads;
    let mut pass: usize = 0;
    while pass < thread::MAX_THREADS
        invariant_except_break
            inherit_all(start, old(m)@.k.ipc.replies, 0) == inherit_all(
                m.k.threads,
                old(m)@.k.ipc.replies,
                pass as int,
            ),
        invariant
            pass <= 16,
            m@.wf(),
            m@.k.threads.current == old(m)@.k.threads.current,
            m@ == old(m)@.with_threads(m.k.threads),
        ensures
            inherit_all(start, old(m)@.k.ipc.replies, 0) == m.k.threads,
        decreases 16 - pass,
    {
        proof {
            reveal(MachineView::announce_priorities);
        }
        let changed: bool = inherit_once(&mut m.k.threads, &m.k.ipc.replies);
        if !changed {
            break;
        }
        pass = pass + 1;
    }
    let ghost announced = m@;
    slot = 0;
    while slot < thread::MAX_THREADS
        invariant
            slot <= 16,
            cx.cpu < 4,
            before == old(m)@.k.threads,
            m@.wf(),
            m@.k.threads.current == old(m)@.k.threads.current,
            m@ == announced.announce_priorities(*cx, before, slot as int),
        decreases 16 - slot,
    {
        proof {
            reveal(MachineView::announce_priorities);
        }
        if before.slots[slot].effective_priority != thread::effective_priority(
            &m.k.threads,
            slot,
        ) {
            priority::priority_changed(m, cx, slot);
        }
        slot = slot + 1;
    }
}

impl MachineView {
    /// A reply right from `server` back to `caller` is made; its handle, or none if the table
    /// is full.
    pub open spec fn allocate_reply(self, cx: Entry, caller: u8, server: u8, endpoint: u8) -> (
        MachineView,
        Option<u64>,
    ) {
        match self.k.ipc.free_reply(0) {
            None => (self, None),
            Some(slot) => {
                let generation = self.k.ipc.replies@[slot].generation;
                (
                    self.with_ipc(
                        self.k.ipc.with_reply(
                            slot,
                            Reply {
                                owner: self.k.task.owner(),
                                generation,
                                caller,
                                server,
                                endpoint,
                            },
                        ),
                    ).recompute(cx),
                    Some(crate::handle::handle_of(slot, generation) as u64),
                )
            },
        }
    }

    /// The message of `sender` reaches thread `receiver`. A call leaves a reply right behind; a
    /// plain send releases the sender.
    pub open spec fn deliver(
        self,
        cx: Entry,
        sender: PendingSender,
        receiver: int,
        endpoint: int,
    ) -> (MachineView, Result<(), u64>) {
        if sender.is_call {
            let (s, reply) = self.allocate_reply(cx, sender.slot, receiver as u8, endpoint as u8);
            match reply {
                None => (s, Err(abi::SYS_ERR_NO_SLOT)),
                Some(handle) => (
                    s.write_message(
                        receiver,
                        IpcMessage { reply: ReplyHandle(handle), ..sender.message },
                    ).wake(cx, receiver, 0),
                    Ok(()),
                ),
            }
        } else {
            (
                self.wake(cx, sender.slot as int, 0).write_message(
                    receiver,
                    IpcMessage { reply: ReplyHandle(0), ..sender.message },
                ).wake(cx, receiver, 0),
                Ok(()),
            )
        }
    }
}

fn allocate_reply(m: &mut Machine, cx: &Entry, caller: u8, server: u8, endpoint: u8) -> (r: Option<
    u64,
>)
    requires
        old(m)@.wf(),
        cx.cpu < 4,
        caller < 16,
        server < 16,
        endpoint < 16,
    ensures
        (final(m)@, r) == old(m)@.allocate_reply(*cx, caller, server, endpoint),
        final(m)@.wf(),
        final(m)@.k.threads.current == old(m)@.k.threads.current,
{
    let mut slot: usize = 0;
    while slot < MAX_REPLIES
        invariant
            slot <= 16,
            *m == *old(m),
            m@.wf(),
            cx.cpu < 4,
            caller < 16,
            server < 16,
            endpoint < 16,
            m.k.ipc.free_reply(0) == m.k.ipc.free_reply(slot as int),
        decreases 16 - slot,
    {
        if m.k.ipc.replies[slot].owner == 0 {
            assert(m.k.ipc.replies@[slot as int].wf());
            let generation: u32 = m.k.ipc.replies[slot].generation;
            let owner: u32 = task::current_owner(&m.k.task);
            m.k.ipc.replies[slot] = Reply { owner, generation, caller, server, endpoint };
            recompute_inherited_priorities(m, cx);
            return Some(make_handle(slot, generation));
        }
        slot = slot + 1;
    }
    None
}

fn deliver(m: &mut Machine, cx: &Entry, sender: PendingSender, receiver: usize, endpoint: usize)
    -> (r: Result<(), u64>)
    requires
        old(m)@.wf(),
        cx.cpu < 4,
        sender.slot < 16,
        receiver < 16,
        endpoint < 16,
    ensures
        (final(m)@, r) == old(m)@.deliver(*cx, sender, receiver as int, endpoint as int),
        final(m)@.wf(),
        final(m)@.k.threads.current == old(m)@.k.threads.current,
{
    let mut message: IpcMessage = sender.message;
    if sender.is_call {
        match allocate_reply(m, cx, sender.slot, receiver as u8, endpoint as u8) {
            None => {
                return Err(abi::SYS_ERR_NO_SLOT);
            },
            Some(reply) => {
                message.reply = ReplyHandle(reply);
            },
        }
    } else {
        message.reply = ReplyHandle(0);
        thread::wake(m, cx, sender.slot as usize, 0);
    }
    thread::write_message(m, receiver, message);
    thread::wake(m, cx, receiver, 0);
    Ok(())
}

impl MachineView {
    pub open spec fn current(self, cx: Entry) -> u8 {
        self.k.threads.current@[cx.cpu as int]
    }

    pub open spec fn with_endpoint(self, slot: int, endpoint: Endpoint) -> MachineView {
        self.with_ipc(self.k.ipc.with_endpoint(slot, endpoint))
    }

    /// The running thread is charged and blocks, and another one is chosen.
    pub open spec fn block(self, cx: Entry, frame: TrapFrame) -> (
        MachineView,
        TrapFrame,
        Result<Dispatch, u64>,
    ) {
        let (s, next) = self.charge_current(cx).leave(
            cx,
            frame,
            ThreadState::Blocked,
        ).schedule_after_block(cx);
        (s, frame, Ok(next))
    }

    /// The call succeeds with zero; a more urgent thread may run first.
    pub open spec fn succeed_and_preempt(self, cx: Entry, frame: TrapFrame) -> (
        MachineView,
        TrapFrame,
        Result<Dispatch, u64>,
    ) {
        let (s, next) = self.preempt_if_needed(cx, frame.with_result(0));
        (s, frame.with_result(0), Ok(next))
    }

    /// A receiver that could not be served goes back to its queue.
    pub open spec fn requeue_receiver(self, slot: int, receiver: u8) -> MachineView {
        let endpoint = self.k.ipc.endpoints@[slot];
        if endpoint.receivers.accepts(receiver) {
            self.with_endpoint(
                slot,
                Endpoint { receivers: endpoint.receivers.pushed(receiver), ..endpoint },
            )
        } else {
            self
        }
    }

    /// A sender that could not be served goes back to its queue.
    pub open spec fn requeue_sender(self, slot: int, sender: PendingSender) -> MachineView {
        let endpoint = self.k.ipc.endpoints@[slot];
        if endpoint.sender_count < 16 {
            self.with_endpoint(slot, endpoint.with_sender(sender))
        } else {
            self
        }
    }

    /// The running thread sends its message, or calls, through an endpoint.
    pub open spec fn send(self, cx: Entry, handle: u64, is_call: bool, frame: TrapFrame) -> (
        MachineView,
        TrapFrame,
        Result<Dispatch, u64>,
    ) {
        match self.k.ipc.find_endpoint(self.k.task.owner(), handle) {
            Err(error) => (self, frame, Err(error)),
            Ok(slot) => {
                let endpoint = self.k.ipc.endpoints@[slot];
                let sender = PendingSender {
                    slot: self.current(cx),
                    is_call,
                    message: cx.message,
                };
                if endpoint.receivers.count > 0 {
                    let receiver = endpoint.receivers.slots@[0];
                    let (s, outcome) = self.with_endpoint(
                        slot,
                        Endpoint { receivers: endpoint.receivers.popped(), ..endpoint },
                    ).deliver(cx, sender, receiver as int, slot);
                    match outcome {
                        Err(error) => (s.requeue_receiver(slot, receiver), frame, Err(error)),
                        Ok(()) => if is_call {
                            s.block(cx, frame.with_result(0))
                        } else {
                            s.succeed_and_preempt(cx, frame)
                        },
                    }
                } else if endpoint.sender_count >= 16 {
                    (self, frame, Err(abi::SYS_ERR_NO_SLOT))
                } else {
                    self.with_endpoint(slot, endpoint.with_sender(sender)).block(cx, frame)
                }
            },
        }
    }

    /// The running thread waits for the next message of the endpoint in `slot`.
    pub open spec fn await_message(self, cx: Entry, slot: int, frame: TrapFrame) -> (
        MachineView,
        TrapFrame,
        Result<Dispatch, u64>,
    ) {
        let endpoint = self.k.ipc.endpoints@[slot];
        if endpoint.receivers.accepts(self.current(cx)) {
            self.with_endpoint(
                slot,
                Endpoint { receivers: endpoint.receivers.pushed(self.current(cx)), ..endpoint },
            ).block(cx, frame)
        } else {
            (self, frame, Err(abi::SYS_ERR_BUSY))
        }
    }

    /// The running thread receives through an endpoint.
    pub open spec fn recv(self, cx: Entry, handle: u64, frame: TrapFrame) -> (
        MachineView,
        TrapFrame,
        Result<Dispatch, u64>,
    ) {
        match self.k.ipc.find_endpoint(self.k.task.owner(), handle) {
            Err(error) => (self, frame, Err(error)),
            Ok(slot) => {
                let endpoint = self.k.ipc.endpoints@[slot];
                if endpoint.sender_count > 0 {
                    let sender = endpoint.senders@[0];
                    let (s, outcome) = self.with_endpoint(
                        slot,
                        endpoint.without_first_sender(),
                    ).deliver(cx, sender, self.current(cx) as int, slot);
                    match outcome {
                        Err(error) => (s.requeue_sender(slot, sender), frame, Err(error)),
                        Ok(()) => (s, frame.with_result(0), Ok(Dispatch::Return)),
                    }
                } else {
                    self.await_message(cx, slot, frame)
                }
            },
        }
    }

    /// The running thread answers a call: the caller gets the message and wakes, and the reply
    /// right is used up.
    pub open spec fn answer(self, cx: Entry, handle: u64) -> (MachineView, Option<u64>) {
        match self.k.ipc.find_reply(self.k.task.owner(), self.current(cx), handle) {
            Err(error) => (self, Some(error)),
            Ok(slot) => {
                let reply = self.k.ipc.replies@[slot];
                let s = self.write_message(reply.caller as int, cx.message).wake(
                    cx,
                    reply.caller as int,
                    0,
                );
                (
                    s.with_ipc(
                        s.k.ipc.with_reply(
                            slot,
                            Reply::unused(crate::handle::generation_after(reply.generation)),
                        ),
                    ).recompute(cx),
                    None,
                )
            },
        }
    }

    pub open spec fn reply(self, cx: Entry, handle: u64, frame: TrapFrame) -> (
        MachineView,
        TrapFrame,
        Result<Dispatch, u64>,
    ) {
        let (s, error) = self.answer(cx, handle);
        match error {
            Some(error) => (s, frame, Err(error)),
            None => s.succeed_and_preempt(cx, frame),
        }
    }

    /// The running thread answers a call and receives the next message. Both handles are
    /// checked before anything changes.
    pub open spec fn reply_recv(self, cx: Entry, endpoint: u64, reply: u64, frame: TrapFrame) -> (
        MachineView,
        TrapFrame,
        Result<Dispatch, u64>,
    ) {
        match self.k.ipc.find_endpoint(self.k.task.owner(), endpoint) {
            Err(error) => (self, frame, Err(error)),
            Ok(slot) => {
                let (s, error) = self.answer(cx, reply);
                match error {
                    Some(error) => (s, frame, Err(error)),
                    None => {
                        let endpoint = s.k.ipc.endpoints@[slot];
                        if endpoint.sender_count > 0 {
                            let sender = endpoint.senders@[0];
                            let (t, outcome) = s.with_endpoint(
                                slot,
                                endpoint.without_first_sender(),
                            ).deliver(cx, sender, self.current(cx) as int, slot);
                            match outcome {
                                Err(error) => (t.requeue_sender(slot, sender), frame, Err(error)),
                                Ok(()) => t.succeed_and_preempt(cx, frame),
                            }
                        } else {
                            s.await_message(cx, slot, frame)
                        }
                    },
                }
            },
        }
    }

    pub open spec fn with_notification(self, slot: int, notification: Notification) -> MachineView {
        self.with_ipc(self.k.ipc.with_notification(slot, notification))
    }

    /// Badges are added to a notification; the first waiter takes all that are pending.
    pub open spec fn signal(self, cx: Entry, handle: u64, badge: u64) -> (MachineView, u64) {
        if badge == 0 {
            (self, abi::SYS_ERR_INVALID)
        } else {
            match self.k.ipc.find_notification(self.k.task.owner(), handle) {
                Err(_) => (self, abi::SYS_ERR_NOT_FOUND),
                Ok(slot) => {
                    let notification = self.k.ipc.notifications@[slot];
                    let pending = notification.pending | badge;
                    if notification.waiters.count > 0 {
                        (
                            self.with_notification(
                                slot,
                                Notification {
                                    pending: 0,
                                    waiters: notification.waiters.popped(),
                                    ..notification
                                },
                            ).wake(cx, notification.waiters.slots@[0] as int, pending),
                            0,
                        )
                    } else {
                        (
                            self.with_notification(slot, Notification { pending, ..notification }),
                            0,
                        )
                    }
                },
            }
        }
    }

    /// The running thread takes the pending badges, or waits for the first.
    pub open spec fn wait(self, cx: Entry, handle: u64, frame: TrapFrame) -> (
        MachineView,
        TrapFrame,
        Result<Dispatch, u64>,
    ) {
        match self.k.ipc.find_notification(self.k.task.owner(), handle) {
            Err(error) => (self, frame, Err(error)),
            Ok(slot) => {
                let notification = self.k.ipc.notifications@[slot];
                if notification.pending != 0 {
                    (
                        self.with_notification(slot, Notification { pending: 0, ..notification }),
                        frame.with_result(notification.pending),
                        Ok(Dispatch::Return),
                    )
                } else if notification.waiters.accepts(self.current(cx)) {
                    self.with_notification(
                        slot,
                        Notification {
                            waiters: notification.waiters.pushed(self.current(cx)),
                            ..notification
                        },
                    ).block(cx, frame)
                } else {
                    (self, frame, Err(abi::SYS_ERR_BUSY))
                }
            },
        }
    }
}

fn block(m: &mut Machine, cx: &Entry, frame: &TrapFrame) -> (r: Result<Dispatch, u64>)
    requires
        old(m)@.wf(),
        old(m)@.k.threads.runs(cx.cpu as int),
    ensures
        (final(m)@, *frame, r) == old(m)@.block(*cx, *frame),
        final(m)@.wf(),
{
    priority::charge_current(m, cx);
    thread::make_current_blocked(m, cx, frame);
    Ok(priority::schedule_after_block(m, cx))
}

fn send_common(m: &mut Machine, cx: &Entry, handle: u64, is_call: bool, frame: &mut TrapFrame) -> (r:
    Result<Dispatch, u64>)
    requires
        old(m)@.wf(),
        old(m)@.k.threads.runs(cx.cpu as int),
    ensures
        (final(m)@, *final(frame), r) == old(m)@.send(*cx, handle, is_call, *old(frame)),
        final(m)@.wf(),
{
    let slot: usize = match endpoint_slot(&m.k.ipc, task::current_owner(&m.k.task), handle) {
        Ok(slot) => slot,
        Err(error) => {
            return Err(error);
        },
    };
    let sender = PendingSender {
        slot: thread::current_slot(&m.k.threads, cx.cpu) as u8,
        is_call,
        message: thread::current_message(cx),
    };
    assert(m.k.ipc.endpoints@[slot as int].wf());
    let popped: Option<usize> = m.k.ipc.endpoints[slot].receivers.pop();
    if let Some(receiver) = popped {
        proof {
            let endpoint = old(m)@.k.ipc.endpoints@[slot as int];
            assert(m@ =~= old(m)@.with_endpoint(
                slot as int,
                Endpoint { receivers: endpoint.receivers.popped(), ..endpoint },
            ));
        }
        if let Err(error) = deliver(m, cx, sender, receiver, slot) {
            assert(m.k.ipc.endpoints@[slot as int].wf());
            let _ = m.k.ipc.endpoints[slot].receivers.push(receiver);
            proof {
                let after = old(m)@.send(*cx, handle, is_call, *old(frame)).0;
                assert(m@.k.ipc.endpoints =~= after.k.ipc.endpoints);
            }
            return Err(error);
        }
        frame.x[0] = 0;
        if is_call {
            block(m, cx, frame)
        } else {
            Ok(priority::preempt_if_needed(m, cx, frame))
        }
    } else {
        assert(m@ =~= old(m)@);
        if !m.k.ipc.endpoints[slot].push_sender(sender) {
            assert(m@ =~= old(m)@);
            return Err(abi::SYS_ERR_NO_SLOT);
        }
        assert(m@ =~= old(m)@.with_endpoint(
            slot as int,
            old(m)@.k.ipc.endpoints@[slot as int].with_sender(sender),
        ));
        block(m, cx, frame)
    }
}

/// Sends the message of the running thread; waits until a receiver takes it.
pub fn endpoint_send(m: &mut Machine, cx: &Entry, handle: u64, frame: &mut TrapFrame) -> (r: Result<
    Dispatch,
    u64,
>)
    requires
        old(m)@.wf(),
        old(m)@.k.threads.runs(cx.cpu as int),
    ensures
        (final(m)@, *final(frame), r) == old(m)@.send(*cx, handle, false, *old(frame)),
        final(m)@.wf(),
{
    send_common(m, cx, handle, false, frame)
}

/// Sends the message of the running thread and waits for the answer.
pub fn endpoint_call(m: &mut Machine, cx: &Entry, handle: u64, frame: &mut TrapFrame) -> (r: Result<
    Dispatch,
    u64,
>)
    requires
        old(m)@.wf(),
        old(m)@.k.threads.runs(cx.cpu as int),
    ensures
        (final(m)@, *final(frame), r) == old(m)@.send(*cx, handle, true, *old(frame)),
        final(m)@.wf(),
{
    send_common(m, cx, handle, true, frame)
}

fn await_message(m: &mut Machine, cx: &Entry, slot: usize, frame: &TrapFrame) -> (r: Result<
    Dispatch,
    u64,
>)
    requires
        old(m)@.wf(),
        old(m)@.k.threads.runs(cx.cpu as int),
        slot < 16,
    ensures
        (final(m)@, *frame, r) == old(m)@.await_message(*cx, slot as int, *frame),
        final(m)@.wf(),
{
    assert(m.k.ipc.endpoints@[slot as int].wf());
    let current: usize = thread::current_slot(&m.k.threads, cx.cpu);
    if !m.k.ipc.endpoints[slot].receivers.push(current) {
        assert(m@ =~= old(m)@);
        return Err(abi::SYS_ERR_BUSY);
    }
    proof {
        let endpoint = old(m)@.k.ipc.endpoints@[slot as int];
        assert(m@ =~= old(m)@.with_endpoint(
            slot as int,
            Endpoint { receivers: endpoint.receivers.pushed(current as u8), ..endpoint },
        ));
    }
    block(m, cx, frame)
}

/// Takes the message of the first waiting sender, or waits for one.
pub fn endpoint_recv(m: &mut Machine, cx: &Entry, handle: u64, frame: &mut TrapFrame) -> (r: Result<
    Dispatch,
    u64,
>)
    requires
        old(m)@.wf(),
        old(m)@.k.threads.runs(cx.cpu as int),
    ensures
        (final(m)@, *final(frame), r) == old(m)@.recv(*cx, handle, *old(frame)),
        final(m)@.wf(),
{
    let slot: usize = match endpoint_slot(&m.k.ipc, task::current_owner(&m.k.task), handle) {
        Ok(slot) => slot,
        Err(error) => {
            return Err(error);
        },
    };
    assert(m.k.ipc.endpoints@[slot as int].wf());
    let popped: Option<PendingSender> = m.k.ipc.endpoints[slot].pop_sender();
    if let Some(sender) = popped {
        assert(m@ =~= old(m)@.with_endpoint(
            slot as int,
            old(m)@.k.ipc.endpoints@[slot as int].without_first_sender(),
        ));
        let receiver: usize = thread::current_slot(&m.k.threads, cx.cpu);
        if let Err(error) = deliver(m, cx, sender, receiver, slot) {
            assert(m.k.ipc.endpoints@[slot as int].wf());
            let _ = m.k.ipc.endpoints[slot].push_sender(sender);
            assert(m@ =~= old(m)@.recv(*cx, handle, *old(frame)).0);
            return Err(error);
        }
        frame.x[0] = 0;
        Ok(Dispatch::Return)
    } else {
        assert(m@ =~= old(m)@);
        await_message(m, cx, slot, frame)
    }
}

fn reply_inner(m: &mut Machine, cx: &Entry, handle: u64) -> (r: Result<(), u64>)
    requires
        old(m)@.wf(),
        old(m)@.k.threads.runs(cx.cpu as int),
    ensures
        final(m)@ == old(m)@.answer(*cx, handle).0,
        match r {
            Ok(()) => old(m)@.answer(*cx, handle).1 is None,
            Err(error) => old(m)@.answer(*cx, handle).1 == Some(error),
        },
        final(m)@.wf(),
        final(m)@.k.threads.current == old(m)@.k.threads.current,
{
    let found: (usize, u32) = match decode_handle(handle, MAX_REPLIES) {
        None => {
            return Err(abi::SYS_ERR_INVALID);
        },
        Some(found) => found,
    };
    let slot: usize = found.0;
    let reply: Reply = m.k.ipc.replies[slot];
    assert(m.k.ipc.replies@[slot as int].wf());
    if reply.owner != task::current_owner(&m.k.task) || reply.generation != found.1
        || reply.server as usize != thread::current_slot(&m.k.threads, cx.cpu) {
        return Err(abi::SYS_ERR_NOT_FOUND);
    }
    thread::write_message(m, reply.caller as usize, thread::current_message(cx));
    thread::wake(m, cx, reply.caller as usize, 0);
    m.k.ipc.replies[slot] = Reply::empty(next_generation(reply.generation));
    recompute_inherited_priorities(m, cx);
    Ok(())
}

/// Answers the call that `handle` stands for.
pub fn endpoint_reply(m: &mut Machine, cx: &Entry, handle: u64, frame: &mut TrapFrame) -> (r: Result<
    Dispatch,
    u64,
>)
    requires
        old(m)@.wf(),
        old(m)@.k.threads.runs(cx.cpu as int),
    ensures
        (final(m)@, *final(frame), r) == old(m)@.reply(*cx, handle, *old(frame)),
        final(m)@.wf(),
{
    if let Err(error) = reply_inner(m, cx, handle) {
        return Err(error);
    }
    frame.x[0] = 0;
    Ok(priority::preempt_if_needed(m, cx, frame))
}

/// Answers a call and takes the next message, or waits for one. A bad endpoint handle is refused
/// before the reply right is used up.
pub fn endpoint_reply_recv(
    m: &mut Machine,
    cx: &Entry,
    endpoint: u64,
    reply: u64,
    frame: &mut TrapFrame,
) -> (r: Result<Dispatch, u64>)
    requires
        old(m)@.wf(),
        old(m)@.k.threads.runs(cx.cpu as int),
    ensures
        (final(m)@, *final(frame), r) == old(m)@.reply_recv(*cx, endpoint, reply, *old(frame)),
        final(m)@.wf(),
{
    let slot: usize = match endpoint_slot(&m.k.ipc, task::current_owner(&m.k.task), endpoint) {
        Ok(slot) => slot,
        Err(error) => {
            return Err(error);
        },
    };
    if let Err(error) = reply_inner(m, cx, reply) {
        return Err(error);
    }
    let ghost answered = m@;
    assert(m.k.ipc.endpoints@[slot as int].wf());
    let popped: Option<PendingSender> = m.k.ipc.endpoints[slot].pop_sender();
    if let Some(sender) = popped {
        assert(m@ =~= answered.with_endpoint(
            slot as int,
            answered.k.ipc.endpoints@[slot as int].without_first_sender(),
        ));
        let receiver: usize = thread::current_slot(&m.k.threads, cx.cpu);
        if let Err(error) = deliver(m, cx, sender, receiver, slot) {
            assert(m.k.ipc.endpoints@[slot as int].wf());
            let _ = m.k.ipc.endpoints[slot].push_sender(sender);
            assert(m@ =~= old(m)@.reply_recv(*cx, endpoint, reply, *old(frame)).0);
            return Err(error);
        }
        frame.x[0] = 0;
        Ok(priority::preempt_if_needed(m, cx, frame))
    } else {
        assert(m@ =~= answered);
        await_message(m, cx, slot, frame)
    }
}

/// Takes the first unused notification for the current owner; its handle, or NO_SLOT.
pub fn notification_create(m: &mut Machine) -> (r: u64)
    requires
        old(m)@.wf(),
    ensures
        (final(m)@, r) == old(m)@.notification_create(),
        final(m)@.wf(),
{
    let mut slot: usize = 0;
    while slot < MAX_NOTIFICATIONS
        invariant
            slot <= 32,
            *m == *old(m),
            m@.wf(),
            m.k.ipc.free_notification(0) == m.k.ipc.free_notification(slot as int),
        decreases 32 - slot,
    {
        if m.k.ipc.notifications[slot].owner == 0 {
            assert(m.k.ipc.notifications@[slot as int].wf());
            let generation: u32 = m.k.ipc.notifications[slot].generation;
            let mut notification: Notification = Notification::empty(generation);
            notification.owner = task::current_owner(&m.k.task);
            m.k.ipc.notifications[slot] = notification;
            return make_handle(slot, generation);
        }
        slot = slot + 1;
    }
    abi::SYS_ERR_NO_SLOT
}

/// Adds badges to a notification and hands all that are pending to the first waiter.
pub fn notification_signal(m: &mut Machine, cx: &Entry, handle: u64, badge: u64) -> (r: u64)
    requires
        old(m)@.wf(),
        cx.cpu < 4,
    ensures
        (final(m)@, r) == old(m)@.signal(*cx, handle, badge),
        final(m)@.wf(),
        final(m)@.k.threads.current == old(m)@.k.threads.current,
{
    if badge == 0 {
        return abi::SYS_ERR_INVALID;
    }
    let slot: usize = match notification_slot(&m.k.ipc, task::current_owner(&m.k.task), handle) {
        Ok(slot) => slot,
        Err(_) => {
            return abi::SYS_ERR_NOT_FOUND;
        },
    };
    assert(m.k.ipc.notifications@[slot as int].wf());
    let pending: u64 = m.k.ipc.notifications[slot].pending | badge;
    m.k.ipc.notifications[slot].pending = pending;
    let waiter: Option<usize> = m.k.ipc.notifications[slot].waiters.pop();
    if let Some(waiter) = waiter {
        m.k.ipc.notifications[slot].pending = 0;
        proof {
            let notification = old(m)@.k.ipc.notifications@[slot as int];
            assert(m@ =~= old(m)@.with_notification(
                slot as int,
                Notification {
                    pending: 0,
                    waiters: notification.waiters.popped(),
                    ..notification
                },
            ));
        }
        thread::wake(m, cx, waiter, pending);
    } else {
        assert(m@ =~= old(m)@.with_notification(
            slot as int,
            Notification { pending, ..old(m)@.k.ipc.notifications@[slot as int] },
        ));
    }
    0
}

/// Takes the pending badges, or waits until some are signalled.
pub fn notification_wait(m: &mut Machine, cx: &Entry, handle: u64, frame: &mut TrapFrame) -> (r:
    Result<Dispatch, u64>)
    requires
        old(m)@.wf(),
        old(m)@.k.threads.runs(cx.cpu as int),
    ensures
        (final(m)@, *final(frame), r) == old(m)@.wait(*cx, handle, *old(frame)),
        final(m)@.wf(),
{
    let slot: usize = match notification_slot(&m.k.ipc, task::current_owner(&m.k.task), handle) {
        Ok(slot) => slot,
        Err(error) => {
            return Err(error);
        },
    };
    assert(m.k.ipc.notifications@[slot as int].wf());
    if m.k.ipc.notifications[slot].pending != 0 {
        let pending: u64 = m.k.ipc.notifications[slot].pending;
        m.k.ipc.notifications[slot].pending = 0;
        frame.x[0] = pending;
        return Ok(Dispatch::Return);
    }
    let current: usize = thread::current_slot(&m.k.threads, cx.cpu);
    if !m.k.ipc.notifications[slot].waiters.push(current) {
        assert(m@ =~= old(m)@);
        return Err(abi::SYS_ERR_BUSY);
    }
    proof {
        let notification = old(m)@.k.ipc.notifications@[slot as int];
        assert(m@ =~= old(m)@.with_notification(
            slot as int,
            Notification {
                waiters: notification.waiters.pushed(current as u8),
                ..notification
            },
        ));
    }
    block(m, cx, frame)
}

/// Takes the pending badges without waiting.
pub fn notification_poll(m: &mut Machine, handle: u64) -> (r: u64)
    requires
        old(m)@.wf(),
    ensures
        (final(m)@, r) == old(m)@.notification_poll(handle),
        final(m)@.wf(),
{
    let slot: usize = match notification_slot(&m.k.ipc, task::current_owner(&m.k.task), handle) {
        Ok(slot) => slot,
        Err(_) => {
            return abi::SYS_ERR_NOT_FOUND;
        },
    };
    assert(m.k.ipc.notifications@[slot as int].wf());
    if m.k.ipc.notifications[slot].pending == 0 {
        abi::SYS_ERR_WOULD_BLOCK
    } else {
        let pending: u64 = m.k.ipc.notifications[slot].pending;
        m.k.ipc.notifications[slot].pending = 0;
        pending
    }
}

/// Gives up a notification and makes its handle stale. Busy while an interrupt is bound to it or
/// a thread waits for it.
pub fn notification_destroy(m: &mut Machine, handle: u64) -> (r: u64)
    requires
        old(m)@.wf(),
    ensures
        (final(m)@, r) == old(m)@.notification_destroy(handle),
        final(m)@.wf(),
{
    let slot: usize = match notification_slot(&m.k.ipc, task::current_owner(&m.k.task), handle) {
        Ok(slot) => slot,
        Err(_) => {
            return abi::SYS_ERR_NOT_FOUND;
        },
    };
    assert(m.k.ipc.notifications@[slot as int].wf());
    if task::notification_is_bound(&m.k.task, handle) {
        return abi::SYS_ERR_BUSY;
    }
    if m.k.ipc.notifications[slot].waiters.count != 0 {
        return abi::SYS_ERR_BUSY;
    }
    let generation: u32 = m.k.ipc.notifications[slot].generation;
    m.k.ipc.notifications[slot] = Notification::empty(next_generation(generation));
    0
}

impl Ipc {
    pub open spec fn endpoint_forgetting(slot: u8) -> spec_fn(Endpoint) -> Endpoint {
        |e: Endpoint| e.forgetting(slot)
    }

    pub open spec fn notification_forgetting(slot: u8) -> spec_fn(Notification) -> Notification {
        |n: Notification| Notification { waiters: n.waiters.removed(slot), ..n }
    }

    /// The tables once thread `slot` waits in no queue.
    pub open spec fn forgetting(self, slot: u8) -> Ipc {
        Ipc {
            endpoints: crate::util::mapped(self.endpoints, Ipc::endpoint_forgetting(slot), 16),
            notifications: crate::util::mapped(
                self.notifications,
                Ipc::notification_forgetting(slot),
                32,
            ),
            ..self
        }
    }
}

impl MachineView {
    /// The first `k` reply rights are given up where thread `slot` is caller or server. A caller
    /// that loses its server wakes with NOT_FOUND.
    pub open spec fn cancel_replies(self, cx: Entry, slot: int, k: int) -> MachineView
        decreases k,
    {
        if k <= 0 {
            self
        } else {
            let s = self.cancel_replies(cx, slot, k - 1);
            let reply = s.k.ipc.replies@[k - 1];
            if reply.owner != 0 && (reply.caller == slot || reply.server == slot) {
                let t = if reply.server == slot && reply.caller != slot {
                    s.wake(cx, reply.caller as int, abi::SYS_ERR_NOT_FOUND)
                } else {
                    s
                };
                t.with_ipc(
                    t.k.ipc.with_reply(
                        k - 1,
                        Reply::unused(crate::handle::generation_after(reply.generation)),
                    ),
                )
            } else {
                s
            }
        }
    }

    /// Thread `slot` takes part in no communication any more.
    pub open spec fn cancel_thread(self, cx: Entry, slot: int) -> MachineView {
        self.with_ipc(self.k.ipc.forgetting(slot as u8)).cancel_replies(cx, slot, 16).recompute(cx)
    }
}

/// Takes thread `slot` out of every queue and gives up the reply rights that involve it.
pub fn cancel_thread(m: &mut Machine, cx: &Entry, slot: usize)
    requires
        old(m)@.wf(),
        cx.cpu < 4,
        slot < 16,
    ensures
        final(m)@ == old(m)@.cancel_thread(*cx, slot as int),
        final(m)@.wf(),
        final(m)@.k.threads.current == old(m)@.k.threads.current,
{
    let ghost endpoints = m.k.ipc.endpoints;
    let ghost notifications = m.k.ipc.notifications;
    let mut object: usize = 0;
    while object < MAX_ENDPOINTS
        invariant
            object <= 16,
            slot < 16,
            m@.wf(),
            endpoints == old(m)@.k.ipc.endpoints,
            m@ == old(m)@.with_ipc(
                Ipc {
                    endpoints: crate::util::mapped(
                        endpoints,
                        Ipc::endpoint_forgetting(slot as u8),
                        object as int,
                    ),
                    ..old(m)@.k.ipc
                },
            ),
        decreases 16 - object,
    {
        proof {
            crate::util::lemma_mapped(
                endpoints,
                Ipc::endpoint_forgetting(slot as u8),
                object as int,
            );
            assert(m.k.ipc.endpoints@[object as int] == endpoints@[object as int]);
            assert(m.k.ipc.endpoints@[object as int].wf());
        }
        m.k.ipc.endpoints[object].forget(slot);
        object = object + 1;
    }
    let ghost between = m@;
    object = 0;
    while object < MAX_NOTIFICATIONS
        invariant
            object <= 32,
            slot < 16,
            m@.wf(),
            notifications == between.k.ipc.notifications,
            m@ == between.with_ipc(
                Ipc {
                    notifications: crate::util::mapped(
                        notifications,
                        Ipc::notification_forgetting(slot as u8),
                        object as int,
                    ),
                    ..between.k.ipc
                },
            ),
        decreases 32 - object,
    {
        proof {
            crate::util::lemma_mapped(
                notifications,
                Ipc::notification_forgetting(slot as u8),
                object as int,
            );
            assert(m.k.ipc.notifications@[object as int] == notifications@[object as int]);
            assert(m.k.ipc.notifications@[object as int].wf());
        }
        m.k.ipc.notifications[object].waiters.remove(slot);
        object = object + 1;
    }
    let ghost forgotten = m@;
    assert(forgotten =~= old(m)@.with_ipc(old(m)@.k.ipc.forgetting(slot as u8)));
    object = 0;
    while object < MAX_REPLIES
        invariant
            object <= 16,
            slot < 16,
            cx.cpu < 4,
            m@.wf(),
            m@ == forgotten.cancel_replies(*cx, slot as int, object as int),
            m@.k.threads.current == forgotten.k.threads.current,
        decreases 16 - object,
    {
        let reply: Reply = m.k.ipc.replies[object];
        assert(m.k.ipc.replies@[object as int].wf());
        if reply.owner != 0 && (reply.caller as usize == slot || reply.server as usize == slot) {
            if reply.server as usize == slot && reply.caller as usize != slot {
                thread::wake(m, cx, reply.caller as usize, abi::SYS_ERR_NOT_FOUND);
            }
            m.k.ipc.replies[object] = Reply::empty(next_generation(reply.generation));
        }
        object = object + 1;
    }
    recompute_inherited_priorities(m, cx);
}

/// Gives up every object of `owner` and makes its handles stale.
pub fn cleanup_owner(ipc: &mut Ipc, owner: u32)
    requires
        old(ipc).wf(),
    ensures
        *final(ipc) == old(ipc).without_owner(owner),
        final(ipc).wf(),
{
    let ghost start = *ipc;
    let mut slot: usize = 0;
    while slot < MAX_ENDPOINTS
        invariant
            slot <= 16,
            ipc.wf(),
            *ipc == (Ipc {
                endpoints: crate::util::mapped(
                    start.endpoints,
                    Ipc::drop_endpoint(owner),
                    slot as int,
                ),
                ..start
            }),
        decreases 16 - slot,
    {
        proof {
            crate::util::lemma_mapped(start.endpoints, Ipc::drop_endpoint(owner), slot as int);
            assert(ipc.endpoints@[slot as int].wf());
        }
        if ipc.endpoints[slot].owner == owner {
            let generation: u32 = ipc.endpoints[slot].generation;
            ipc.endpoints[slot] = Endpoint::empty(next_generation(generation));
        }
        slot = slot + 1;
        assert(ipc.endpoints =~= crate::util::mapped(
            start.endpoints,
            Ipc::drop_endpoint(owner),
            slot as int,
        ));
    }
    let ghost middle = *ipc;
    slot = 0;
    while slot < MAX_NOTIFICATIONS
        invariant
            slot <= 32,
            ipc.wf(),
            *ipc == (Ipc {
                notifications: crate::util::mapped(
                    middle.notifications,
                    Ipc::drop_notification(owner),
                    slot as int,
                ),
                ..middle
            }),
        decreases 32 - slot,
    {
        proof {
            crate::util::lemma_mapped(
                middle.notifications,
                Ipc::drop_notification(owner),
                slot as int,
            );
            assert(ipc.notifications@[slot as int].wf());
        }
        if ipc.notifications[slot].owner == owner {
            let generation: u32 = ipc.notifications[slot].generation;
            ipc.notifications[slot] = Notification::empty(next_generation(generation));
        }
        slot = slot + 1;
        assert(ipc.notifications =~= crate::util::mapped(
            middle.notifications,
            Ipc::drop_notification(owner),
            slot as int,
        ));
    }
    let ghost last = *ipc;
    slot = 0;
    while slot < MAX_REPLIES
        invariant
            slot <= 16,
            ipc.wf(),
            *ipc == (Ipc {
                replies: crate::util::mapped(last.replies, Ipc::drop_reply(owner), slot as int),
                ..last
            }),
        decreases 16 - slot,
    {
        proof {
            crate::util::lemma_mapped(last.replies, Ipc::drop_reply(owner), slot as int);
            assert(ipc.replies@[slot as int].wf());
        }
        if ipc.replies[slot].owner == owner {
            let generation: u32 = ipc.replies[slot].generation;
            ipc.replies[slot] = Reply::empty(next_generation(generation));
        }
        slot = slot + 1;
        assert(ipc.replies =~= crate::util::mapped(
            last.replies,
            Ipc::drop_reply(owner),
            slot as int,
        ));
    }
}

} // verus!
