//! Preemptive scheduling by static priority, one ready set for each processor.
//!
//! A 64-bit map says at which priorities a processor may have ready threads. Among ready
//! threads of one priority the least `ready_sequence` runs first; a thread whose slice is over
//! gets a new number and so goes to the end.
use crate::abi;
use crate::arch::smp;
use crate::hw::HwOp;
use crate::machine::{Dispatch, Entry, Kernel, Machine, MachineView};
use crate::object::thread::{self, Thread, ThreadState, ThreadTable};
use crate::scheduler::timer;
use crate::syscall::dispatch::TrapFrame;
use crate::util::ArrayUpdate;
use vstd::prelude::*;

verus! {

#[derive(Clone, Copy, Debug, PartialEq, Eq, Structural)]
pub struct CpuScheduler {
    pub ready_bitmap: u64,
    /// Counter value at which the running thread was last charged.
    pub active_start: u64,
    pub initialized: bool,
}

#[derive(Clone, Copy)]
#[verifier::ext_equal]
pub struct Scheduler {
    pub cpus: [CpuScheduler; 4],
    /// The number that the next thread to become ready gets.
    pub ready_sequence: u64,
}

impl Scheduler {
    pub open spec fn with_bitmap(self, cpu: int, bitmap: u64) -> Scheduler {
        Scheduler {
            cpus: self.cpus.upd(cpu, CpuScheduler { ready_bitmap: bitmap, ..self.cpus@[cpu] }),
            ..self
        }
    }

    pub open spec fn with_start(self, cpu: int, start: u64) -> Scheduler {
        Scheduler {
            cpus: self.cpus.upd(cpu, CpuScheduler { active_start: start, ..self.cpus@[cpu] }),
            ..self
        }
    }
}

pub fn empty_scheduler() -> (r: Scheduler)
    ensures
        r.ready_sequence == 1,
        forall|i: int|
            0 <= i < 4 ==> r.cpus@[i] == (CpuScheduler {
                ready_bitmap: 0,
                active_start: 0,
                initialized: false,
            }),
{
    let idle = CpuScheduler { ready_bitmap: 0, active_start: 0, initialized: false };
    Scheduler { cpus: [idle; 4], ready_sequence: 1 }
}

/// Bit `p` of `map` is set.
pub open spec fn has_bit(map: u64, p: int) -> bool {
    map & (1u64 << (p as u64)) != 0
}

/// Thread `slot` is ready, bound to `cpu`, and has effective priority `p`.
pub open spec fn candidate(threads: ThreadTable, cpu: int, p: int, slot: int) -> bool {
    let thread = threads.slots@[slot];
    thread.state == ThreadState::Ready && thread.affinity_cpu == cpu && thread.effective_priority
        == p
}

/// `slot` comes before `other` among candidates: it became ready earlier.
pub open spec fn earlier(threads: ThreadTable, slot: int, other: int) -> bool {
    let a = threads.slots@[slot].ready_sequence;
    let b = threads.slots@[other].ready_sequence;
    a < b || (a == b && slot <= other)
}

/// `slot` is the candidate at priority `p` that became ready first.
pub open spec fn is_first(threads: ThreadTable, cpu: int, p: int, slot: int) -> bool {
    &&& 0 <= slot < 16
    &&& candidate(threads, cpu, p, slot)
    &&& forall|other: int|
        0 <= other < 16 && #[trigger] candidate(threads, cpu, p, other) ==> earlier(
            threads,
            slot,
            other,
        )
}

/// Some thread is ready on `cpu` at priority `p`.
pub open spec fn has_candidate(threads: ThreadTable, cpu: int, p: int) -> bool {
    exists|slot: int| 0 <= slot < 16 && #[trigger] candidate(threads, cpu, p, slot)
}

/// The thread that runs next at priority `p`.
pub open spec fn first_at(threads: ThreadTable, cpu: int, p: int) -> int {
    choose|slot: int| is_first(threads, cpu, p, slot)
}

/// The highest priority at or below `p` whose bit is set and that has a ready thread; -1 if none.
pub open spec fn top_priority(threads: ThreadTable, cpu: int, map: u64, p: int) -> int
    decreases p + 1,
{
    if p < 0 {
        -1
    } else if has_bit(map, p) && has_candidate(threads, cpu, p) {
        p
    } else {
        top_priority(threads, cpu, map, p - 1)
    }
}

/// The map without the bits above `top`.
pub open spec fn keep_through(map: u64, top: int) -> u64 {
    if top < 0 {
        0
    } else {
        map & (0xffff_ffff_ffff_ffffu64 >> ((63 - top) as u64))
    }
}

pub(crate) proof fn lemma_bits(map: u64, p: u64)
    requires
        p < 64,
    ensures
        has_bit(map | (1u64 << p), p as int),
        !has_bit(map & !(1u64 << p), p as int),
{
    assert((map | (1u64 << p)) & (1u64 << p) != 0 && (map & !(1u64 << p)) & (1u64 << p) == 0)
        by (bit_vector)
        requires
            p < 64,
    ;
}

pub(crate) proof fn lemma_bits_other(map: u64, p: u64, q: u64)
    requires
        p < 64,
        q < 64,
        p != q,
    ensures
        has_bit(map | (1u64 << p), q as int) == has_bit(map, q as int),
        has_bit(map & !(1u64 << p), q as int) == has_bit(map, q as int),
{
    assert((map | (1u64 << p)) & (1u64 << q) == map & (1u64 << q) && (map & !(1u64 << p)) & (1u64
        << q) == map & (1u64 << q)) by (bit_vector)
        requires
            p < 64,
            q < 64,
            p != q,
    ;
}

impl MachineView {
    /// The running thread is charged with the time since its last charge.
    pub open spec fn charge_current(self, cx: Entry) -> MachineView {
        let threads = self.k.threads;
        let slot = threads.current@[cx.cpu as int] as int;
        if slot < 16 && threads.slots@[slot].state == ThreadState::Running {
            let thread = threads.slots@[slot];
            let spent = cx.now.wrapping_sub(self.k.sched.cpus@[cx.cpu as int].active_start);
            self.with_threads(
                threads.with(
                    slot,
                    Thread { runtime_ticks: thread.runtime_ticks.wrapping_add(spent), ..thread },
                ),
            )
        } else {
            self
        }
    }

    /// A full slice starts now on this processor.
    pub open spec fn arm_full(self, cx: Entry) -> MachineView {
        self.op(self.k.timer.arm_op()).with_sched(
            self.k.sched.with_start(cx.cpu as int, cx.now),
        )
    }

    pub open spec fn disarm(self) -> MachineView {
        self.op(self.k.timer.disarm_op())
    }

    /// Thread `slot`, now ready, enters the ready set of its processor.
    pub open spec fn enqueued(self, slot: int) -> MachineView {
        let thread = self.k.threads.slots@[slot];
        let cpu = thread.affinity_cpu as int;
        let sequence = self.k.sched.ready_sequence;
        let sched = Scheduler {
            ready_sequence: sequence.wrapping_add(1),
            ..self.k.sched
        };
        self.with_threads(
            self.k.threads.with(
                slot,
                Thread {
                    ready_sequence: if sequence < 1 {
                        1
                    } else {
                        sequence
                    },
                    ..thread
                },
            ),
        ).with_sched(
            sched.with_bitmap(
                cpu,
                sched.cpus@[cpu].ready_bitmap | (1u64 << (thread.effective_priority as u64)),
            ),
        ).op(HwOp::Sev)
    }

    /// What follows when thread `slot` has become ready: it is queued, sleeping processors are
    /// woken, and the processor that it is bound to is told if it runs nothing more urgent.
    pub open spec fn thread_ready(self, cx: Entry, slot: int) -> MachineView {
        let s = self.enqueued(slot);
        let thread = self.k.threads.slots@[slot];
        let target = thread.affinity_cpu as int;
        let running = s.k.threads.current@[target] as int;
        if running < 16 && s.k.threads.slots@[running].state == ThreadState::Running {
            let ahead = thread.effective_priority;
            let behind = s.k.threads.slots@[running].effective_priority;
            if target != cx.cpu && ahead >= behind {
                s.with_ops(
                    s.k.smp.reschedule_ops(s.k.gic, cx.cpu, thread.affinity_cpu as usize),
                )
            } else if target == cx.cpu && ahead == behind {
                s.charge_current(cx).arm_full(cx)
            } else {
                s
            }
        } else {
            s
        }
    }

    /// The priority at which processor `cpu` runs next; -1 if nothing is ready.
    pub open spec fn next_priority(self, cpu: int) -> int {
        top_priority(self.k.threads, cpu, self.k.sched.cpus@[cpu].ready_bitmap, 63)
    }

    /// The thread that processor `cpu` runs next.
    pub open spec fn next_thread(self, cpu: int) -> Option<int> {
        let p = self.next_priority(cpu);
        if p < 0 {
            None
        } else {
            Some(first_at(self.k.threads, cpu, p))
        }
    }

    /// The state after processor `cpu` has looked for the thread to run: priorities that proved
    /// empty on the way are dropped from its map.
    pub open spec fn searched(self, cpu: int) -> MachineView {
        self.with_sched(
            self.k.sched.with_bitmap(
                cpu,
                keep_through(self.k.sched.cpus@[cpu].ready_bitmap, self.next_priority(cpu)),
            ),
        )
    }

    /// The bit of priority `p` says whether `cpu` has a ready thread there.
    pub open spec fn refreshed(self, cpu: int, p: u8) -> MachineView {
        let map = self.k.sched.cpus@[cpu].ready_bitmap;
        self.with_sched(
            self.k.sched.with_bitmap(
                cpu,
                if has_candidate(self.k.threads, cpu, p as int) {
                    map | (1u64 << (p as u64))
                } else {
                    map & !(1u64 << (p as u64))
                },
            ),
        )
    }

    /// Another thread than `slot` is ready on `cpu` at priority `p`.
    pub open spec fn has_rival(self, cpu: int, p: u8, slot: int) -> bool {
        exists|other: int|
            0 <= other < 16 && other != slot && #[trigger] candidate(
                self.k.threads,
                cpu,
                p as int,
                other,
            )
    }
}

/// Charges the running thread with the time since its last charge.
pub(crate) fn charge_current(m: &mut Machine, cx: &Entry)
    requires
        cx.cpu < 4,
    ensures
        final(m)@ == old(m)@.charge_current(*cx),
        old(m)@.wf() ==> final(m)@.wf(),
{
    let slot: usize = thread::current_slot(&m.k.threads, cx.cpu);
    if slot < thread::MAX_THREADS && thread::is_running(&m.k.threads, slot) {
        let start: u64 = m.k.sched.cpus[cx.cpu].active_start;
        thread::charge(&mut m.k.threads, slot, cx.now.wrapping_sub(start));
    }
}

fn arm_full(m: &mut Machine, cx: &Entry)
    requires
        cx.cpu < 4,
    ensures
        final(m)@ == old(m)@.arm_full(*cx),
        old(m)@.wf() ==> final(m)@.wf(),
{
    let start: u64 = timer::arm_full(&m.k.timer, &mut m.ops, cx.now);
    m.k.sched.cpus[cx.cpu].active_start = start;
}

fn disarm(m: &mut Machine)
    ensures
        final(m)@ == old(m)@.disarm(),
        old(m)@.wf() ==> final(m)@.wf(),
{
    timer::disarm(&m.k.timer, &mut m.ops);
}

/// Queues thread `slot`, which has just become ready, and tells its processor.
pub fn on_thread_ready(m: &mut Machine, cx: &Entry, slot: usize)
    requires
        old(m)@.wf(),
        cx.cpu < 4,
        slot < 16,
    ensures
        final(m)@ == old(m)@.thread_ready(*cx, slot as int),
        final(m)@.wf(),
        final(m)@.k.threads.current == old(m)@.k.threads.current,
{
    assert(m.k.threads.slots@[slot as int].wf());
    let target_cpu: usize = thread::affinity(&m.k.threads, slot);
    let sequence: u64 = m.k.sched.ready_sequence;
    m.k.sched.ready_sequence = sequence.wrapping_add(1);
    thread::set_ready_sequence(
        &mut m.k.threads,
        slot,
        if sequence < 1 {
            1
        } else {
            sequence
        },
    );
    let priority: u8 = thread::effective_priority(&m.k.threads, slot);
    let map: u64 = m.k.sched.cpus[target_cpu].ready_bitmap;
    m.k.sched.cpus[target_cpu].ready_bitmap = map | (1u64 << (priority as u64));
    m.ops.push(HwOp::Sev);
    assert(m@ =~= old(m)@.enqueued(slot as int));
    let running: usize = thread::current_slot_on(&m.k.threads, target_cpu);
    if running < thread::MAX_THREADS && thread::is_running(&m.k.threads, running) {
        let ready_priority: u8 = thread::effective_priority(&m.k.threads, slot);
        let running_priority: u8 = thread::effective_priority(&m.k.threads, running);
        if target_cpu != cx.cpu && ready_priority >= running_priority {
            smp::send_reschedule(&m.k.smp, &m.k.gic, &mut m.ops, cx.cpu, target_cpu);
        } else if target_cpu == cx.cpu && ready_priority == running_priority {
            charge_current(m, cx);
            arm_full(m, cx);
        }
    }
}

/// What the search for the highest set bit yields.
proof fn lemma_top_bit(start: u64, h: u64, map: u64, p: u64)
    requires
        h <= 63,
        map == start & (0xffff_ffff_ffff_ffffu64 >> ((63 - h) as u64)),
        map != 0,
        p == 63 - vstd::std_specs::bits::u64_leading_zeros(map),
    ensures
        p <= h,
        has_bit(start, p as int),
        forall|q: int| p < q <= h ==> !has_bit(start, q),
        map == keep_through(start, p as int),
        map & !(1u64 << p) == keep_through(start, p - 1),
{
    vstd::std_specs::bits::axiom_u64_leading_zeros(map);
    let lz = vstd::std_specs::bits::u64_leading_zeros(map) as u64;
    assert((map >> ((63 - lz) as u64)) & 1 != 0);
    let above = (64 - lz) as u64;
    assert(map >> above == 0);
    assert(p <= h && start & (1u64 << p) != 0 && map == start & (0xffff_ffff_ffff_ffffu64 >> (
    (63 - p) as u64)) && (p >= 1 ==> map & !(1u64 << p) == start & (0xffff_ffff_ffff_ffffu64 >> ((64
        - p) as u64))) && (p == 0 ==> map & !(1u64 << p) == 0)) by (bit_vector)
        requires
            h <= 63,
            p <= 63,
            above == p + 1,
            map == start & (0xffff_ffff_ffff_ffffu64 >> ((63 - h) as u64)),
            (map >> p) & 1 != 0,
            above < 64 ==> map >> above == 0,
    ;
    assert forall|q: int| p < q <= h implies !has_bit(start, q) by {
        let r = q as u64;
        assert(start & (1u64 << r) == 0) by (bit_vector)
            requires
                h <= 63,
                p < r,
                r <= h,
                above == p + 1,
                map == start & (0xffff_ffff_ffff_ffffu64 >> ((63 - h) as u64)),
                map >> above == 0,
        ;
    }
}

proof fn lemma_first_is_unique(threads: ThreadTable, cpu: int, p: int, slot: int)
    requires
        is_first(threads, cpu, p, slot),
    ensures
        first_at(threads, cpu, p) == slot,
        has_candidate(threads, cpu, p),
{
    let other = first_at(threads, cpu, p);
    assert(is_first(threads, cpu, p, other));
    assert(candidate(threads, cpu, p, slot) && candidate(threads, cpu, p, other));
}

proof fn lemma_top_priority_skips(threads: ThreadTable, cpu: int, map: u64, h: int, p: int)
    requires
        -1 <= p <= h <= 63,
        forall|q: int| p < q <= h ==> !(has_bit(map, q) && has_candidate(threads, cpu, q)),
    ensures
        top_priority(threads, cpu, map, h) == top_priority(threads, cpu, map, p),
    decreases h - p,
{
    if p < h {
        lemma_top_priority_skips(threads, cpu, map, h - 1, p);
    }
}

/// Whether another thread than `selected` is ready on `cpu` at `priority`.
fn has_same_priority_competitor(m: &Machine, cpu: usize, priority: u8, selected: usize) -> (r: bool)
    ensures
        r == m@.has_rival(cpu as int, priority, selected as int),
{
    let mut slot: usize = 0;
    while slot < thread::MAX_THREADS
        invariant
            slot <= 16,
            forall|other: int|
                0 <= other < slot && other != selected ==> !#[trigger] candidate(
                    m.k.threads,
                    cpu as int,
                    priority as int,
                    other,
                ),
        decreases 16 - slot,
    {
        if slot != selected && thread::is_ready(&m.k.threads, slot) && thread::affinity(
            &m.k.threads,
            slot,
        ) == cpu && thread::effective_priority(&m.k.threads, slot) == priority {
            assert(candidate(m@.k.threads, cpu as int, priority as int, slot as int));
            return true;
        }
        slot = slot + 1;
    }
    false
}

/// Sets or clears the map bit of one priority according to the threads that are ready.
fn refresh_priority(m: &mut Machine, cpu: usize, priority: u8)
    requires
        cpu < 4,
        priority < 64,
    ensures
        final(m)@ == old(m)@.refreshed(cpu as int, priority),
        old(m)@.wf() ==> final(m)@.wf(),
{
    let mut present: bool = false;
    let mut slot: usize = 0;
    while slot < thread::MAX_THREADS
        invariant_except_break
            !present,
            forall|other: int|
                0 <= other < slot ==> !#[trigger] candidate(
                    m.k.threads,
                    cpu as int,
                    priority as int,
                    other,
                ),
        invariant
            slot <= 16,
            *m == *old(m),
        ensures
            present == has_candidate(m.k.threads, cpu as int, priority as int),
        decreases 16 - slot,
    {
        if thread::is_ready(&m.k.threads, slot) && thread::affinity(&m.k.threads, slot) == cpu
            && thread::effective_priority(&m.k.threads, slot) == priority {
            assert(candidate(m.k.threads, cpu as int, priority as int, slot as int));
            present = true;
            break;
        }
        slot = slot + 1;
    }
    let map: u64 = m.k.sched.cpus[cpu].ready_bitmap;
    if present {
        m.k.sched.cpus[cpu].ready_bitmap = map | (1u64 << (priority as u64));
    } else {
        m.k.sched.cpus[cpu].ready_bitmap = map & !(1u64 << (priority as u64));
    }
}

/// The thread that became ready first on `cpu` at `priority`.
fn first_ready(threads: &ThreadTable, cpu: usize, priority: u8) -> (r: Option<usize>)
    ensures
        match r {
            Some(slot) => is_first(*threads, cpu as int, priority as int, slot as int),
            None => !has_candidate(*threads, cpu as int, priority as int),
        },
{
    let mut selected: Option<usize> = None;
    let mut selected_sequence: u64 = 0xffff_ffff_ffff_ffff;
    let mut slot: usize = 0;
    while slot < thread::MAX_THREADS
        invariant
            slot <= 16,
            match selected {
                None => forall|other: int|
                    0 <= other < slot ==> !#[trigger] candidate(
                        *threads,
                        cpu as int,
                        priority as int,
                        other,
                    ),
                Some(best) => {
                    &&& best < slot
                    &&& candidate(*threads, cpu as int, priority as int, best as int)
                    &&& selected_sequence == threads.slots@[best as int].ready_sequence
                    &&& forall|other: int|
                        0 <= other < slot && #[trigger] candidate(
                            *threads,
                            cpu as int,
                            priority as int,
                            other,
                        ) ==> earlier(*threads, best as int, other)
                },
            },
        decreases 16 - slot,
    {
        if thread::is_ready(threads, slot) && thread::affinity(threads, slot) == cpu
            && thread::effective_priority(threads, slot) == priority {
            let sequence: u64 = thread::ready_sequence(threads, slot);
            if selected.is_none() || sequence < selected_sequence {
                selected = Some(slot);
                selected_sequence = sequence;
            }
        }
        slot = slot + 1;
    }
    selected
}

/// Finds the thread that `cpu` runs next: the highest priority first, then the longest ready.
/// Priorities that prove empty are dropped from the map on the way.
fn next_runnable(m: &mut Machine, cpu: usize) -> (r: Option<usize>)
    requires
        old(m)@.wf(),
        cpu < 4,
    ensures
        final(m)@ == old(m)@.searched(cpu as int),
        match r {
            Some(slot) => slot < 16 && old(m)@.next_thread(cpu as int) == Some(slot as int)
                && candidate(
                old(m)@.k.threads,
                cpu as int,
                old(m)@.next_priority(cpu as int),
                slot as int,
            ),
            None => old(m)@.next_thread(cpu as int) is None,
        },
        final(m)@.wf(),
{
    let ghost start = m.k.sched.cpus@[cpu as int].ready_bitmap;
    let ghost mut h: int = 63;
    assert(start & (0xffff_ffff_ffff_ffffu64 >> 0u64) == start) by (bit_vector);
    assert(m@ =~= old(m)@.with_sched(old(m)@.k.sched.with_bitmap(cpu as int, start)));
    while m.k.sched.cpus[cpu].ready_bitmap != 0
        invariant
            cpu < 4,
            m@.wf(),
            -1 <= h <= 63,
            start == old(m)@.k.sched.cpus@[cpu as int].ready_bitmap,
            m.k.threads == old(m)@.k.threads,
            m@ == old(m)@.with_sched(
                old(m)@.k.sched.with_bitmap(cpu as int, keep_through(start, h)),
            ),
            top_priority(m.k.threads, cpu as int, start, 63) == top_priority(
                m.k.threads,
                cpu as int,
                start,
                h,
            ),
        decreases h + 1,
    {
        let bitmap: u64 = m.k.sched.cpus[cpu].ready_bitmap;
        proof {
            vstd::std_specs::bits::axiom_u64_leading_zeros(bitmap);
        }
        let priority: u8 = (63 - bitmap.leading_zeros()) as u8;
        proof {
            lemma_top_bit(start, h as u64, bitmap, priority as u64);
            lemma_top_priority_skips(m.k.threads, cpu as int, start, h, priority as int);
        }
        let selected: Option<usize> = first_ready(&m.k.threads, cpu, priority);
        if let Some(slot) = selected {
            proof {
                lemma_first_is_unique(m.k.threads, cpu as int, priority as int, slot as int);
            }
            return Some(slot);
        }
        refresh_priority(m, cpu, priority);
        proof {
            h = priority - 1;
            assert(m@ =~= old(m)@.with_sched(
                old(m)@.k.sched.with_bitmap(cpu as int, keep_through(start, h)),
            ));
        }
    }
    proof {
        assert forall|q: int| -1 < q <= h implies !has_bit(start, q) by {
            let r = q as u64;
            let hh = h as u64;
            assert(start & (1u64 << r) == 0) by (bit_vector)
                requires
                    hh <= 63,
                    r <= hh,
                    start & (0xffff_ffff_ffff_ffffu64 >> ((63 - hh) as u64)) == 0,
            ;
        }
        lemma_top_priority_skips(m.k.threads, cpu as int, start, h, -1);
    }
    None
}

impl MachineView {
    /// Thread `slot` begins to run on this processor, in its own address space.
    pub open spec fn thread_activate(self, cx: Entry, slot: int) -> (MachineView, Dispatch) {
        let handle = self.k.threads.slots@[slot].vspace_handle;
        match self.k.spaces.find_for(self.k.task.owner(), handle) {
            Err(_) => (self, Dispatch::Halt),
            Ok(space) => {
                let s = self.switched(cx.cpu, handle, space);
                let threads = s.k.threads;
                (
                    s.with_threads(
                        ThreadTable {
                            current: threads.current.upd(cx.cpu as int, slot as u8),
                            ..threads.with(
                                slot,
                                Thread {
                                    state: ThreadState::Running,
                                    running_cpu: cx.cpu as u8,
                                    ..threads.slots@[slot]
                                },
                            )
                        },
                    ),
                    Dispatch::Switch(slot as usize),
                )
            },
        }
    }

    /// Thread `slot` is chosen to run: a slice is started only if a rival of the same priority
    /// is ready, and a thread without a program counter is never entered.
    pub open spec fn activate(self, cx: Entry, slot: int) -> (MachineView, Dispatch) {
        let thread = self.k.threads.slots@[slot];
        let cpu = cx.cpu as int;
        if thread.context.elr_el1 == 0 {
            (self, Dispatch::Halt)
        } else {
            let s = self.refreshed(cpu, thread.effective_priority);
            let armed = if s.has_rival(cpu, thread.effective_priority, slot) {
                s.arm_full(cx)
            } else {
                s.disarm().with_sched(s.k.sched.with_start(cpu, cx.now))
            };
            armed.thread_activate(cx, slot)
        }
    }

    /// The processor takes the next ready thread, or waits.
    pub open spec fn wait_and_activate(self, cx: Entry) -> (MachineView, Dispatch) {
        let s = self.searched(cx.cpu as int);
        match self.next_thread(cx.cpu as int) {
            Some(slot) => s.activate(cx, slot),
            None => (s.disarm(), Dispatch::Wait),
        }
    }

    pub open spec fn schedule_after_block(self, cx: Entry) -> (MachineView, Dispatch) {
        self.charge_current(cx).disarm().wait_and_activate(cx)
    }

    /// The running thread's state changes and it leaves its processor.
    pub open spec fn leave(self, cx: Entry, frame: TrapFrame, state: ThreadState) -> MachineView {
        let s = self.save_current(cx.cpu as int, frame);
        let slot = s.k.threads.current@[cx.cpu as int] as int;
        s.with_threads(
            s.k.threads.with(
                slot,
                Thread { state, running_cpu: thread::NONE, ..s.k.threads.slots@[slot] },
            ),
        )
    }

    /// The running thread stays ready and goes to the end of its queue.
    pub open spec fn make_current_ready(self, cx: Entry, frame: TrapFrame) -> MachineView {
        self.leave(cx, frame, ThreadState::Ready).thread_ready(
            cx,
            self.k.threads.current@[cx.cpu as int] as int,
        )
    }

    pub open spec fn yield_current(self, cx: Entry, frame: TrapFrame) -> (MachineView, Dispatch) {
        self.charge_current(cx).make_current_ready(cx, frame).wait_and_activate(cx)
    }

    /// A processor that was idle takes a ready thread, if there is one.
    pub open spec fn activate_if_idle(self, cx: Entry) -> (MachineView, Dispatch) {
        let s = self.searched(cx.cpu as int);
        match self.next_thread(cx.cpu as int) {
            Some(slot) => s.activate(cx, slot),
            None => (s, Dispatch::Return),
        }
    }

    /// A thread of higher priority replaces the running one; a rival of the same priority only
    /// starts a slice.
    pub open spec fn preempt_if_needed(self, cx: Entry, frame: TrapFrame) -> (
        MachineView,
        Dispatch,
    ) {
        let s = self.searched(cx.cpu as int);
        match self.next_thread(cx.cpu as int) {
            None => (s, Dispatch::Return),
            Some(next) => {
                let mine =
                    s.k.threads.slots@[s.k.threads.current@[cx.cpu as int] as int].effective_priority;
                let theirs = s.k.threads.slots@[next].effective_priority;
                if theirs < mine {
                    (s, Dispatch::Return)
                } else if theirs == mine {
                    (s.charge_current(cx).arm_full(cx), Dispatch::Return)
                } else {
                    s.charge_current(cx).make_current_ready(cx, frame).activate(cx, next)
                }
            },
        }
    }

    /// The scheduler hears that the effective priority of `slot` changed.
    pub open spec fn priority_changed(self, cx: Entry, slot: int) -> MachineView {
        let thread = self.k.threads.slots@[slot];
        if thread.state == ThreadState::Ready {
            self.thread_ready(cx, slot)
        } else if thread.state == ThreadState::Running {
            self.with_ops(
                self.k.smp.reschedule_ops(self.k.gic, cx.cpu, thread.affinity_cpu as usize),
            )
        } else {
            self
        }
    }

    /// Time that the running thread `slot` has used since it was last charged.
    pub open spec fn active_runtime_ticks(self, now: u64, slot: int) -> u64 {
        let thread = self.k.threads.slots@[slot];
        if !(0 <= slot < 16) || thread.state != ThreadState::Running || thread.running_cpu >= 4 {
            0
        } else {
            let start = self.k.sched.cpus@[thread.running_cpu as int].active_start;
            if start == 0 {
                0
            } else {
                now.wrapping_sub(start)
            }
        }
    }
}

fn activate(m: &mut Machine, cx: &Entry, slot: usize) -> (r: Dispatch)
    requires
        old(m)@.wf(),
        cx.cpu < 4,
        slot < 16,
    ensures
        (final(m)@, r) == old(m)@.activate(*cx, slot as int),
        final(m)@.wf(),
{
    assert(m.k.threads.slots@[slot as int].wf());
    if thread::saved_pc(&m.k.threads, slot) == 0 {
        return Dispatch::Halt;
    }
    let priority: u8 = thread::effective_priority(&m.k.threads, slot);
    refresh_priority(m, cx.cpu, priority);
    if has_same_priority_competitor(m, cx.cpu, priority, slot) {
        arm_full(m, cx);
    } else {
        disarm(m);
        m.k.sched.cpus[cx.cpu].active_start = cx.now;
    }
    thread::activate(m, cx, slot)
}

fn wait_and_activate(m: &mut Machine, cx: &Entry) -> (r: Dispatch)
    requires
        old(m)@.wf(),
        cx.cpu < 4,
    ensures
        (final(m)@, r) == old(m)@.wait_and_activate(*cx),
        final(m)@.wf(),
{
    match next_runnable(m, cx.cpu) {
        Some(slot) => activate(m, cx, slot),
        None => {
            disarm(m);
            Dispatch::Wait
        },
    }
}

/// One turn of the idle loop: run a ready thread, or stop the timer and wait for an event.
pub fn idle_loop(m: &mut Machine, cx: &Entry) -> (r: Dispatch)
    requires
        old(m)@.wf(),
        cx.cpu < 4,
    ensures
        (final(m)@, r) == old(m)@.wait_and_activate(*cx),
        final(m)@.wf(),
{
    wait_and_activate(m, cx)
}

/// An idle processor that was interrupted takes a ready thread, or returns to its wait.
pub fn activate_if_idle(m: &mut Machine, cx: &Entry) -> (r: Dispatch)
    requires
        old(m)@.wf(),
        cx.cpu < 4,
    ensures
        (final(m)@, r) == old(m)@.activate_if_idle(*cx),
        final(m)@.wf(),
{
    match next_runnable(m, cx.cpu) {
        Some(slot) => activate(m, cx, slot),
        None => Dispatch::Return,
    }
}

/// The running thread has just blocked or gone: charge it and choose another.
pub fn schedule_after_block(m: &mut Machine, cx: &Entry) -> (r: Dispatch)
    requires
        old(m)@.wf(),
        cx.cpu < 4,
    ensures
        (final(m)@, r) == old(m)@.schedule_after_block(*cx),
        final(m)@.wf(),
{
    charge_current(m, cx);
    disarm(m);
    wait_and_activate(m, cx)
}

/// The slice is over: the running thread goes to the end of its queue.
pub fn on_timer(m: &mut Machine, cx: &Entry, frame: &TrapFrame) -> (r: Dispatch)
    requires
        old(m)@.wf(),
        old(m)@.k.threads.runs(cx.cpu as int),
    ensures
        (final(m)@, r) == old(m)@.yield_current(*cx, *frame),
        final(m)@.wf(),
{
    charge_current(m, cx);
    thread::make_current_ready(m, cx, frame);
    wait_and_activate(m, cx)
}

/// The running thread gives the rest of its turn away.
pub fn yield_current(m: &mut Machine, cx: &Entry, frame: &TrapFrame) -> (r: Dispatch)
    requires
        old(m)@.wf(),
        old(m)@.k.threads.runs(cx.cpu as int),
    ensures
        (final(m)@, r) == old(m)@.yield_current(*cx, *frame),
        final(m)@.wf(),
{
    charge_current(m, cx);
    thread::make_current_ready(m, cx, frame);
    wait_and_activate(m, cx)
}

/// The effective priority of `slot` changed: queue it anew, or make its processor look again.
pub fn priority_changed(m: &mut Machine, cx: &Entry, slot: usize)
    requires
        old(m)@.wf(),
        cx.cpu < 4,
        slot < 16,
    ensures
        final(m)@ == old(m)@.priority_changed(*cx, slot as int),
        final(m)@.wf(),
        final(m)@.k.threads.current == old(m)@.k.threads.current,
{
    if thread::is_ready(&m.k.threads, slot) {
        on_thread_ready(m, cx, slot);
    } else if thread::is_running(&m.k.threads, slot) {
        let target: usize = thread::affinity(&m.k.threads, slot);
        smp::send_reschedule(&m.k.smp, &m.k.gic, &mut m.ops, cx.cpu, target);
    }
}

/// Time that a running thread has used since it was last charged; zero if it does not run.
pub fn active_runtime_ticks(m: &Machine, cx: &Entry, slot: usize) -> (r: u64)
    ensures
        r == m@.active_runtime_ticks(cx.now, slot as int),
{
    if !thread::is_running(&m.k.threads, slot) {
        return 0;
    }
    let running_cpu: usize = thread::running_cpu(&m.k.threads, slot);
    if running_cpu >= abi::MAX_CPUS {
        return 0;
    }
    let start: u64 = m.k.sched.cpus[running_cpu].active_start;
    if start == 0 {
        0
    } else {
        cx.now.wrapping_sub(start)
    }
}

/// Nothing is kept of a thread that leaves the ready set: its map bit goes stale and the next
/// search drops it.
pub fn on_thread_exit(m: &mut Machine, slot: usize)
    ensures
        final(m)@ == old(m)@,
{
}

/// Runs a thread of higher priority if one has become ready.
pub fn preempt_if_needed(m: &mut Machine, cx: &Entry, frame: &TrapFrame) -> (r: Dispatch)
    requires
        old(m)@.wf(),
        old(m)@.k.threads.runs(cx.cpu as int),
    ensures
        (final(m)@, r) == old(m)@.preempt_if_needed(*cx, *frame),
        final(m)@.wf(),
{
    let next: usize = match next_runnable(m, cx.cpu) {
        None => {
            return Dispatch::Return;
        },
        Some(next) => next,
    };
    let theirs: u8 = thread::effective_priority(&m.k.threads, next);
    let mine: u8 = thread::current_priority(&m.k.threads, cx.cpu);
    if theirs < mine {
        return Dispatch::Return;
    }
    if theirs == mine {
        charge_current(m, cx);
        arm_full(m, cx);
        return Dispatch::Return;
    }
    charge_current(m, cx);
    thread::make_current_ready(m, cx, frame);
    activate(m, cx, next)
}

impl MachineView {
    /// The timer is stopped and no processor has a ready set any more.
    pub open spec fn sched_cleanup(self) -> MachineView {
        self.disarm().with_sched(
            Scheduler {
                cpus: crate::util::filled(
                    CpuScheduler { ready_bitmap: 0, active_start: 0, initialized: false },
                ),
                ready_sequence: 1,
            },
        )
    }
}

/// Stops the timer and forgets every ready set.
pub fn cleanup_owner(m: &mut Machine)
    ensures
        final(m)@ == old(m)@.sched_cleanup(),
        old(m)@.wf() ==> final(m)@.wf(),
{
    disarm(m);
    let idle = CpuScheduler { ready_bitmap: 0, active_start: 0, initialized: false };
    m.k.sched = Scheduler { cpus: [idle; 4], ready_sequence: 1 };
}

impl MachineView {
    /// This processor takes part in scheduling: its timer is set up and stopped, and what it
    /// runs is charged from now on. Nothing happens with an interrupt that is not private or
    /// without a frequency.
    pub open spec fn sched_init(self, cx: Entry, intid: u32, use_virtual: bool, frequency: u64) -> (
        MachineView,
        bool,
    ) {
        let timer = timer::Timer {
            intid,
            ticks_per_slice: if frequency < 1000 {
                1
            } else {
                frequency / 1000
            },
            use_virtual,
        };
        if !(16 <= intid < 32 && frequency != 0) {
            (self, false)
        } else {
            (
                MachineView {
                    k: Kernel {
                        timer,
                        sched: Scheduler {
                            cpus: self.k.sched.cpus.upd(
                                cx.cpu as int,
                                CpuScheduler {
                                    ready_bitmap: self.k.sched.cpus@[cx.cpu as int].ready_bitmap,
                                    active_start: cx.now,
                                    initialized: true,
                                },
                            ),
                            ..self.k.sched
                        },
                        ..self.k
                    },
                    ops: (self.ops.push(timer.disarm_op()) + self.k.gic.configure_private_ops(
                        intid,
                        0x20,
                    ) + self.k.gic.private_bit_ops(
                        crate::interrupt::gic::GICD_ISENABLER,
                        intid,
                    )).push(timer.disarm_op()),
                    ..self
                },
                true,
            )
        }
    }
}

/// Prepares the timer and the scheduler of this processor. False if the timer was refused.
pub fn init(m: &mut Machine, cx: &Entry, timer_intid: u32, use_virtual_timer: bool, frequency: u64)
    -> (r: bool)
    requires
        cx.cpu < 4,
    ensures
        (final(m)@, r) == old(m)@.sched_init(*cx, timer_intid, use_virtual_timer, frequency),
        old(m)@.wf() ==> final(m)@.wf(),
{
    if !timer::init(&mut m.k.timer, &m.k.gic, &mut m.ops, timer_intid, use_virtual_timer, frequency) {
        return false;
    }
    m.k.sched.cpus[cx.cpu].initialized = true;
    disarm(m);
    m.k.sched.cpus[cx.cpu].active_start = cx.now;
    assert(m.k.sched.cpus =~= old(m)@.k.sched.cpus.upd(
        cx.cpu as int,
        CpuScheduler {
            ready_bitmap: old(m)@.k.sched.cpus@[cx.cpu as int].ready_bitmap,
            active_start: cx.now,
            initialized: true,
        },
    ));
    true
}

} // verus!
