//! Turns: threads of equal priority run one after the other.
use crate::laws::scheduling;
use crate::machine::{Dispatch, Entry, MachineView};
use crate::object::thread::{Thread, ThreadState};
use crate::syscall::dispatch::TrapFrame;
use vstd::prelude::*;

verus! {

/// Thread `slot` can take its turn on `cpu` at priority `p`.
pub open spec fn takes_turns(s: MachineView, cpu: int, p: u8, slot: int) -> bool {
    let thread = s.k.threads.slots@[slot];
    &&& 0 <= slot < 16
    &&& thread.affinity_cpu == cpu
    &&& thread.effective_priority == p
    &&& s.k.spaces.find_for(s.k.task.owner(), thread.vspace_handle) is Ok
}

/// The threads of `line` share the highest priority on processor `cpu`: the first runs, the
/// others are ready in this order, and every other ready thread there is less urgent.
pub open spec fn in_line(s: MachineView, cpu: int, line: Seq<int>) -> bool {
    let threads = s.k.threads;
    let p = threads.slots@[line[0]].effective_priority;
    &&& line.len() > 0
    &&& line.no_duplicates()
    &&& threads.initialized
    &&& forall|i: int| 0 <= i < line.len() ==> takes_turns(s, cpu, p, #[trigger] line[i])
    &&& threads.slots@[line[0]].state == ThreadState::Running
    &&& threads.slots@[line[0]].running_cpu == cpu
    &&& threads.current@[cpu] == line[0]
    &&& forall|i: int|
        1 <= i < line.len() ==> threads.slots@[#[trigger] line[i]].state == ThreadState::Ready
            && threads.slots@[line[i]].context.elr_el1 != 0
    &&& forall|i: int, j: int|
        1 <= i < j < line.len() ==> threads.slots@[#[trigger] line[i]].ready_sequence
            < threads.slots@[#[trigger] line[j]].ready_sequence
    &&& forall|slot: int|
        0 <= slot < 16 && (#[trigger] threads.slots@[slot]).state == ThreadState::Ready
            && threads.slots@[slot].affinity_cpu == cpu ==> threads.slots@[slot].effective_priority
            < p || line.contains(slot)
}

/// The line after its first thread went to the end.
pub open spec fn turned(line: Seq<int>) -> Seq<int> {
    line.drop_first().push(line[0])
}

/// When the slice of the first in line ends, the second runs and the first goes to the end.
pub proof fn law_slice_passes_on(s: MachineView, cx: Entry, frame: TrapFrame, line: Seq<int>)
    requires
        scheduling::orderly(s),
        scheduling::numbered(s),
        cx.cpu < 4,
        in_line(s, cx.cpu as int, line),
        frame.elr_el1 != 0,
        s.k.sched.ready_sequence < u64::MAX,
    ensures
        ({
            let (t, next) = s.yield_current(cx, frame);
            &&& next == Dispatch::Switch(turned(line)[0] as usize)
            &&& in_line(t, cx.cpu as int, turned(line))
            &&& scheduling::orderly(t)
            &&& scheduling::numbered(t)
            &&& t.k.sched.ready_sequence == s.k.sched.ready_sequence + 1
        }),
{
    let cpu = cx.cpu as int;
    let first = line[0];
    let p = s.k.threads.slots@[first].effective_priority;
    assert(takes_turns(s, cpu, p, line[0]));
    let a = s.charge_current(cx);
    scheduling::lemma_charge(s, cx);
    scheduling::lemma_no_less(s, a, -1);
    scheduling::lemma_make_current_ready(a, cx, frame);
    scheduling::lemma_yield(s, cx, frame);
    let b = a.leave(cx, frame, ThreadState::Ready);
    assert(forall|i: int| 0 <= i < 16 && i != first ==> b.k.threads.slots@[i] == s.k.threads.slots@[i]);
    assert(b.k.threads.slots@[first].state == ThreadState::Ready);
    assert(b.k.threads.slots@[first].context == frame);
    let c = a.make_current_ready(cx, frame);
    assert(c == b.enqueued(first));
    assert(forall|i: int| 0 <= i < 16 && i != first ==> c.k.threads.slots@[i] == s.k.threads.slots@[i]);
    assert(c.k.threads.slots@[first].ready_sequence == s.k.sched.ready_sequence);
    let after = turned(line);
    let next = after[0];
    lemma_head(s, c, cpu, line, frame);
    let d = c.searched(cpu);
    let thread = c.k.threads.slots@[next];
    let e = d.refreshed(cpu, thread.effective_priority);
    let f = if e.has_rival(cpu, thread.effective_priority, next) {
        e.arm_full(cx)
    } else {
        e.disarm().with_sched(e.k.sched.with_start(cpu, cx.now))
    };
    assert(f.k.threads == c.k.threads);
    assert(f.k.spaces == s.k.spaces);
    assert(f.k.task == s.k.task);
    let t = s.yield_current(cx, frame).0;
    assert(t == f.thread_activate(cx, next).0);
    assert(f.k.spaces.find_for(f.k.task.owner(), thread.vspace_handle) is Ok);
    assert(forall|i: int| 0 <= i < 16 && i != next ==> t.k.threads.slots@[i] == c.k.threads.slots@[i]);
    assert(t.k.threads.slots@[next] == (Thread {
        state: ThreadState::Running,
        running_cpu: cx.cpu as u8,
        ..c.k.threads.slots@[next]
    }));
    assert forall|handle: u64| t.k.spaces.find_for(t.k.task.owner(), handle) == #[trigger]
        s.k.spaces.find_for(s.k.task.owner(), handle) by {}
    lemma_line_after(s, c, t, cpu, line);
}

/// After the first in line has been queued again, the next thread to run is the second.
proof fn lemma_head(s: MachineView, c: MachineView, cpu: int, line: Seq<int>, frame: TrapFrame)
    requires
        scheduling::orderly(c),
        scheduling::numbered(s),
        0 <= cpu < 4,
        in_line(s, cpu, line),
        frame.elr_el1 != 0,
        forall|i: int| 0 <= i < 16 && i != line[0] ==> c.k.threads.slots@[i] == s.k.threads.slots@[i],
        c.k.threads.slots@[line[0]].state == ThreadState::Ready,
        c.k.threads.slots@[line[0]].affinity_cpu == cpu,
        c.k.threads.slots@[line[0]].effective_priority
            == s.k.threads.slots@[line[0]].effective_priority,
        c.k.threads.slots@[line[0]].context == frame,
        c.k.threads.slots@[line[0]].ready_sequence == s.k.sched.ready_sequence,
        c.k.threads.slots@[line[0]].vspace_handle == s.k.threads.slots@[line[0]].vspace_handle,
    ensures
        c.next_thread(cpu) == Some(turned(line)[0]),
        c.k.threads.slots@[turned(line)[0]].context.elr_el1 != 0,
        takes_turns(s, cpu, s.k.threads.slots@[line[0]].effective_priority, turned(line)[0]),
        c.k.threads.slots@[turned(line)[0]].vspace_handle
            == s.k.threads.slots@[turned(line)[0]].vspace_handle,
{
    scheduling::law_next_is_most_urgent(c, cpu);
    let first = line[0];
    let p = s.k.threads.slots@[first].effective_priority;
    assert(takes_turns(s, cpu, p, line[0]));
    let expected = turned(line)[0];
    assert(expected == if line.len() > 1 {
        line[1]
    } else {
        line[0]
    });
    if line.len() > 1 {
        assert(takes_turns(s, cpu, p, line[1]));
        assert(line[1] != line[0]);
    }
    assert(c.k.threads.slots@[first].state == ThreadState::Ready);
    match c.next_thread(cpu) {
        None => {
            assert(false);
        },
        Some(slot) => {
            if slot != expected {
                assert(c.k.threads.slots@[expected].state == ThreadState::Ready);
                assert(c.k.threads.slots@[slot].effective_priority >= p);
                if slot != first {
                    assert(s.k.threads.slots@[slot].state == ThreadState::Ready);
                    assert(line.contains(slot));
                    let i = choose|i: int| 0 <= i < line.len() && line[i] == slot;
                    assert(i > 1);
                    assert(s.k.threads.slots@[line[1]].ready_sequence
                        < s.k.threads.slots@[line[i]].ready_sequence);
                } else {
                    assert(s.k.threads.slots@[expected].ready_sequence
                        < s.k.sched.ready_sequence);
                }
            }
        },
    }
}

/// The line in the state after the switch.
proof fn lemma_line_after(s: MachineView, c: MachineView, t: MachineView, cpu: int, line: Seq<int>)
    requires
        scheduling::numbered(s),
        0 <= cpu < 4,
        in_line(s, cpu, line),
        forall|i: int| 0 <= i < 16 && i != line[0] ==> c.k.threads.slots@[i] == s.k.threads.slots@[i],
        forall|i: int|
            0 <= i < 16 && i != turned(line)[0] ==> t.k.threads.slots@[i] == c.k.threads.slots@[i],
        c.k.threads.slots@[line[0]].state == ThreadState::Ready,
        c.k.threads.slots@[line[0]].affinity_cpu == cpu,
        c.k.threads.slots@[line[0]].effective_priority
            == s.k.threads.slots@[line[0]].effective_priority,
        c.k.threads.slots@[line[0]].context.elr_el1 != 0,
        c.k.threads.slots@[line[0]].ready_sequence == s.k.sched.ready_sequence,
        c.k.threads.slots@[line[0]].vspace_handle == s.k.threads.slots@[line[0]].vspace_handle,
        t.k.threads.slots@[turned(line)[0]] == (Thread {
            state: ThreadState::Running,
            running_cpu: cpu as u8,
            ..c.k.threads.slots@[turned(line)[0]]
        }),
        t.k.threads.current@[cpu] == turned(line)[0],
        t.k.threads.initialized,
        t.k.sched.ready_sequence == s.k.sched.ready_sequence + 1,
        forall|handle: u64|
            t.k.spaces.find_for(t.k.task.owner(), handle) == #[trigger] s.k.spaces.find_for(
                s.k.task.owner(),
                handle,
            ),
    ensures
        in_line(t, cpu, turned(line)),
        scheduling::numbered(t),
{
    let after = turned(line);
    let n = line.len() as int;
    let p = s.k.threads.slots@[line[0]].effective_priority;
    assert(after.len() == n);
    assert forall|i: int| 0 <= i < n - 1 implies #[trigger] after[i] == line[i + 1] by {}
    assert(after[n - 1] == line[0]);
    assert forall|i: int, j: int| 0 <= i < j < n implies after[i] != after[j] by {
        if j < n - 1 {
            assert(line[i + 1] != line[j + 1]);
        } else {
            assert(line[i + 1] != line[0]);
        }
    }
    assert(after.no_duplicates());
    assert forall|i: int| 0 <= i < n implies takes_turns(t, cpu, p, #[trigger] after[i]) by {
        let at = if i < n - 1 {
            i + 1
        } else {
            0
        };
        assert(after[i] == line[at]);
        assert(takes_turns(s, cpu, p, line[at]));
        let handle = s.k.threads.slots@[line[at]].vspace_handle;
        assert(s.k.spaces.find_for(s.k.task.owner(), handle) is Ok);
    }
    assert(takes_turns(t, cpu, p, after[0]));
    assert forall|i: int| 1 <= i < n implies t.k.threads.slots@[#[trigger] after[i]].state
        == ThreadState::Ready && t.k.threads.slots@[after[i]].context.elr_el1 != 0 by {
        assert(after[i] != after[0]);
        assert(takes_turns(t, cpu, p, after[i]));
        if i < n - 1 {
            assert(after[i] == line[i + 1]);
            assert(line[i + 1] != line[0]);
        }
    }
    assert forall|i: int, j: int| 1 <= i < j < n implies t.k.threads.slots@[
        #[trigger] after[i]
    ].ready_sequence < t.k.threads.slots@[#[trigger] after[j]].ready_sequence by {
        assert(takes_turns(t, cpu, p, after[i]) && takes_turns(t, cpu, p, after[j]));
        assert(after[i] != after[0] && after[j] != after[0]);
        assert(after[i] == line[i + 1]);
        assert(line[i + 1] != line[0]);
        if j < n - 1 {
            assert(after[j] == line[j + 1]);
            assert(line[j + 1] != line[0]);
            assert(s.k.threads.slots@[line[i + 1]].ready_sequence
                < s.k.threads.slots@[line[j + 1]].ready_sequence);
        } else {
            assert(s.k.threads.slots@[line[i + 1]].ready_sequence < s.k.sched.ready_sequence);
        }
    }
    assert forall|slot: int|
        0 <= slot < 16 && (#[trigger] t.k.threads.slots@[slot]).state == ThreadState::Ready
            && t.k.threads.slots@[slot].affinity_cpu == cpu implies
        t.k.threads.slots@[slot].effective_priority < p || after.contains(slot) by {
        if slot == line[0] {
            assert(after[n - 1] == slot);
        } else {
            assert(slot != after[0]);
            assert(t.k.threads.slots@[slot] == s.k.threads.slots@[slot]);
            if line.contains(slot) {
                let i = choose|i: int| 0 <= i < n && line[i] == slot;
                assert(after[i - 1] == slot);
            }
        }
    }
    assert forall|i: int| 0 <= i < 16 implies (#[trigger] t.k.threads.slots@[i]).ready_sequence
        < t.k.sched.ready_sequence by {
        assert(s.k.threads.slots@[i].ready_sequence < s.k.sched.ready_sequence);
    }
}

/// The line after its first `k` threads went to the end one by one.
pub open spec fn rotated(line: Seq<int>, k: int) -> Seq<int> {
    Seq::new(line.len(), |i: int| line[(i + k) % (line.len() as int)])
}

proof fn lemma_rotated(line: Seq<int>, k: int)
    requires
        line.len() > 0,
        k >= 0,
    ensures
        rotated(line, 0) == line,
        turned(rotated(line, k)) == rotated(line, k + 1),
{
    let n = line.len() as int;
    assert forall|i: int| 0 <= i < n implies rotated(line, 0)[i] == line[i] by {
        vstd::arithmetic::div_mod::lemma_small_mod(i as nat, n as nat);
    }
    assert(rotated(line, 0) =~= line);
    assert forall|i: int| 0 <= i < n implies turned(rotated(line, k))[i] == rotated(
        line,
        k + 1,
    )[i] by {
        if i == n - 1 {
            vstd::arithmetic::div_mod::lemma_mod_add_multiples_vanish(k, n);
            assert(i + (k + 1) == n + k);
        } else {
            assert((i + 1) + k == i + (k + 1));
        }
    }
    assert(turned(rotated(line, k)) =~= rotated(line, k + 1));
}

/// The state after the first `k` slices ended, each with the frame of the thread that ran.
pub open spec fn after_slices(
    s: MachineView,
    entries: Seq<Entry>,
    frames: Seq<TrapFrame>,
    k: int,
) -> MachineView
    decreases k,
{
    if k <= 0 {
        s
    } else {
        after_slices(s, entries, frames, k - 1).yield_current(entries[k - 1], frames[k - 1]).0
    }
}

/// Threads of equal priority take turns: the end of slice `k` resumes thread `k` of the line,
/// counted round. So as many slices as there are threads resume each of them once, in the order
/// in which they became ready, the one that ran first last, and no less urgent thread in between.
pub proof fn law_equals_take_turns(
    s: MachineView,
    cpu: usize,
    entries: Seq<Entry>,
    frames: Seq<TrapFrame>,
    line: Seq<int>,
    k: int,
)
    requires
        scheduling::orderly(s),
        scheduling::numbered(s),
        cpu < 4,
        in_line(s, cpu as int, line),
        0 <= k <= entries.len(),
        k <= frames.len(),
        forall|i: int| 0 <= i < k ==> (#[trigger] entries[i]).cpu == cpu,
        forall|i: int| 0 <= i < k ==> (#[trigger] frames[i]).elr_el1 != 0,
        s.k.sched.ready_sequence + k <= u64::MAX,
    ensures
        ({
            let t = after_slices(s, entries, frames, k);
            &&& in_line(t, cpu as int, rotated(line, k))
            &&& scheduling::orderly(t)
            &&& scheduling::numbered(t)
            &&& t.k.sched.ready_sequence == s.k.sched.ready_sequence + k
            &&& k > 0 ==> after_slices(s, entries, frames, k - 1).yield_current(
                entries[k - 1],
                frames[k - 1],
            ).1 == Dispatch::Switch(line[k % (line.len() as int)] as usize)
        }),
    decreases k,
{
    lemma_rotated(line, 0);
    if k > 0 {
        law_equals_take_turns(s, cpu, entries, frames, line, k - 1);
        let before = after_slices(s, entries, frames, k - 1);
        assert(entries[k - 1].cpu == cpu);
        assert(frames[k - 1].elr_el1 != 0);
        law_slice_passes_on(before, entries[k - 1], frames[k - 1], rotated(line, k - 1));
        lemma_rotated(line, k - 1);
        assert(rotated(line, k)[0] == line[(0 + k) % (line.len() as int)]);
    }
}

} // verus!
