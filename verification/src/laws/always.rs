//! From boot to the end of the task: what holds in every state of the kernel.
use crate::boot::kmain;
use crate::boot_info::BootInfo;
use crate::laws::memory::memory_isolated;
use crate::laws::numbers::NUMBERS_PER_CALL;
use crate::laws::scheduling::{idle, numbered, orderly};
use crate::laws::{calls, isolation, mappings, memory, numbers, scheduling, start};
use crate::machine::{unused, Dispatch, Entry, MachineView};
use crate::memory::{frame, vspace};
use crate::syscall::dispatch::TrapFrame;
use vstd::prelude::*;

verus! {

/// No page has two uses, no frame is writable in one place and executable in another, every frame
/// counts exactly its mappings, and the scheduler is in order.
pub open spec fn promises(s: MachineView) -> bool {
    &&& memory_isolated(s)
    &&& vspace::write_xor_execute(s.k.spaces)
    &&& vspace::mappings_counted(s.k)
    &&& orderly(s)
}

/// A thread of the task makes a system call, after which the kernel can go on.
pub open spec fn called(a: MachineView, b: MachineView) -> bool {
    a.k.task.active && exists|cx: Entry, frame: TrapFrame|
        a.k.threads.runs(cx.cpu as int) && (#[trigger] a.svc_frame(cx, frame)).2 != Dispatch::Halt
            && b == a.svc_frame(cx, frame).0
}

/// An interrupt comes in: at EL0 where a thread runs, at EL1 where none does.
pub open spec fn interrupted(a: MachineView, b: MachineView) -> bool {
    exists|cx: Entry, raw: u32, frame: TrapFrame|
        cx.cpu < 4 && (frame.spsr_el1 % 16 == 0 ==> a.k.threads.runs(cx.cpu as int)) && (
        frame.spsr_el1 % 16 != 0 ==> idle(a.k.threads, cx.cpu as int)) && b == (#[trigger] a.irq(
            cx,
            raw,
            frame,
        )).0
}

/// Processors get their stacks, set their timers up or join.
pub open spec fn joined(a: MachineView, b: MachineView) -> bool {
    ||| exists|n: int| b == (#[trigger] a.secondary_stacks(n)).0
    ||| exists|cx: Entry, intid: u32, use_virtual: bool, frequency: u64|
        cx.cpu < 4 && b == (#[trigger] a.sched_init(cx, intid, use_virtual, frequency)).0
    ||| exists|cx: Entry, root: u64, intid: u32, use_virtual: bool, frequency: u64|
        cx.cpu < 4 && idle(a.k.threads, cx.cpu as int) && b == (#[trigger] a.secondary_entry(
            cx,
            root,
            intid,
            use_virtual,
            frequency,
        )).0
}

/// From `a` to `b` one of these happened, or the hardware carried out what it was asked for.
pub open spec fn stepped(a: MachineView, b: MachineView) -> bool {
    ||| called(a, b)
    ||| interrupted(a, b)
    ||| joined(a, b)
    ||| b.k == a.k && b.tables == a.tables
}

proof fn lemma_called(a: MachineView, b: MachineView)
    requires
        a.wf(),
        promises(a),
        called(a, b),
    ensures
        promises(b),
{
    let (cx, frame) = choose|cx: Entry, frame: TrapFrame|
        a.k.threads.runs(cx.cpu as int) && (#[trigger] a.svc_frame(cx, frame)).2 != Dispatch::Halt
            && b == a.svc_frame(cx, frame).0;
    isolation::law_calls_keep_isolation(a, cx, frame);
    mappings::law_calls_keep_mappings(a, cx, frame);
    calls::law_calls_keep_order(a, cx, frame);
}

proof fn lemma_interrupted(a: MachineView, b: MachineView)
    requires
        a.wf(),
        promises(a),
        interrupted(a, b),
    ensures
        promises(b),
{
    let (cx, raw, frame) = choose|cx: Entry, raw: u32, frame: TrapFrame|
        cx.cpu < 4 && (frame.spsr_el1 % 16 == 0 ==> a.k.threads.runs(cx.cpu as int)) && (
        frame.spsr_el1 % 16 != 0 ==> idle(a.k.threads, cx.cpu as int)) && b == (#[trigger] a.irq(
            cx,
            raw,
            frame,
        )).0;
    isolation::law_interrupts_keep_isolation(a, cx, raw, frame);
    mappings::law_interrupts_keep_mappings(a, cx, raw, frame);
    scheduling::law_interrupts_keep_order(a, cx, raw, frame);
}

proof fn lemma_joined(a: MachineView, b: MachineView)
    requires
        a.wf(),
        promises(a),
        joined(a, b),
    ensures
        promises(b),
{
    if exists|n: int| b == (#[trigger] a.secondary_stacks(n)).0 {
        let n = choose|n: int| b == (#[trigger] a.secondary_stacks(n)).0;
        start::law_stacks_are_taken_soundly(a, n);
    } else if exists|cx: Entry, intid: u32, use_virtual: bool, frequency: u64|
        cx.cpu < 4 && b == (#[trigger] a.sched_init(cx, intid, use_virtual, frequency)).0 {
        let (cx, intid, use_virtual, frequency) = choose|
            cx: Entry,
            intid: u32,
            use_virtual: bool,
            frequency: u64,
        |
            cx.cpu < 4 && b == (#[trigger] a.sched_init(cx, intid, use_virtual, frequency)).0;
        start::law_timer_starts_soundly(a, cx, intid, use_virtual, frequency);
    } else {
        let (cx, root, intid, use_virtual, frequency) = choose|
            cx: Entry,
            root: u64,
            intid: u32,
            use_virtual: bool,
            frequency: u64,
        |
            cx.cpu < 4 && idle(a.k.threads, cx.cpu as int) && b == (#[trigger] a.secondary_entry(
                cx,
                root,
                intid,
                use_virtual,
                frequency,
            )).0;
        start::law_processor_joins_soundly(a, cx, root, intid, use_virtual, frequency);
    }
}

/// From the state that booting leaves, through any calls and interrupts until the task ends, every
/// promise holds in every state: so no frame is ever writable and executable at once, every frame
/// counts its mappings, and no page has two uses.
pub proof fn law_promises_always_hold(
    s: MachineView,
    cx: Entry,
    bi: BootInfo,
    blob: Seq<u8>,
    image: Seq<u8>,
    states: Seq<MachineView>,
    n: int,
)
    requires
        unused(s.k),
        !s.k.task.active,
        s.tables.len() == 0,
        bi.wf(),
        kmain::sound_memory(bi),
        start::ranges_apart(bi),
        s.boot(cx, bi, blob, image).1 is Ok,
        0 <= n < states.len(),
        states[0] == s.boot(cx, bi, blob, image).0,
        forall|i: int| 0 <= i < states.len() ==> (#[trigger] states[i]).wf(),
        forall|i: int| 0 <= i < states.len() - 1 ==> stepped(states[i], #[trigger] states[i + 1]),
    ensures
        promises(states[n]),
        frame::frames_isolated(states[n].k),
    decreases n,
{
    if n == 0 {
        start::law_boot_starts_sound(s, cx, bi, blob, image);
    } else {
        law_promises_always_hold(s, cx, bi, blob, image, states, n - 1);
        let a = states[n - 1];
        let b = states[n - 1 + 1];
        assert(stepped(a, b));
        assert(a.wf());
        if called(a, b) {
            lemma_called(a, b);
        } else if interrupted(a, b) {
            lemma_interrupted(a, b);
        } else if joined(a, b) {
            lemma_joined(a, b);
        } else {
            memory::law_hardware_moves_no_pages(a, b);
            scheduling::lemma_elsewhere(a, b);
        }
    }
    memory::law_isolation_holds_of_frames(states[n]);
}

proof fn lemma_numbers_step(a: MachineView, b: MachineView)
    requires
        a.wf(),
        stepped(a, b),
        numbered(a),
        a.k.sched.ready_sequence <= u64::MAX - NUMBERS_PER_CALL,
    ensures
        numbered(b),
        b.k.sched.ready_sequence <= a.k.sched.ready_sequence + NUMBERS_PER_CALL,
{
    if called(a, b) {
        let (cx, frame) = choose|cx: Entry, frame: TrapFrame|
            a.k.threads.runs(cx.cpu as int) && (#[trigger] a.svc_frame(cx, frame)).2
                != Dispatch::Halt && b == a.svc_frame(cx, frame).0;
        numbers::law_calls_keep_numbers(a, cx, frame);
    } else if interrupted(a, b) {
        let (cx, raw, frame) = choose|cx: Entry, raw: u32, frame: TrapFrame|
            cx.cpu < 4 && (frame.spsr_el1 % 16 == 0 ==> a.k.threads.runs(cx.cpu as int)) && (
            frame.spsr_el1 % 16 != 0 ==> idle(a.k.threads, cx.cpu as int)) && b == (
            #[trigger] a.irq(cx, raw, frame)).0;
        numbers::law_interrupts_keep_numbers(a, cx, raw, frame);
    } else if exists|n: int| b == (#[trigger] a.secondary_stacks(n)).0 {
        let n = choose|n: int| b == (#[trigger] a.secondary_stacks(n)).0;
        numbers::law_joining_keeps_numbers(a, start::nobody(), n, 0, 0, false, 0);
    } else if exists|cx: Entry, intid: u32, use_virtual: bool, frequency: u64|
        cx.cpu < 4 && b == (#[trigger] a.sched_init(cx, intid, use_virtual, frequency)).0 {
        let (cx, intid, use_virtual, frequency) = choose|
            cx: Entry,
            intid: u32,
            use_virtual: bool,
            frequency: u64,
        |
            cx.cpu < 4 && b == (#[trigger] a.sched_init(cx, intid, use_virtual, frequency)).0;
        numbers::law_joining_keeps_numbers(a, cx, 0, 0, intid, use_virtual, frequency);
    } else if joined(a, b) {
        let (cx, root, intid, use_virtual, frequency) = choose|
            cx: Entry,
            root: u64,
            intid: u32,
            use_virtual: bool,
            frequency: u64,
        |
            cx.cpu < 4 && idle(a.k.threads, cx.cpu as int) && b == (#[trigger] a.secondary_entry(
                cx,
                root,
                intid,
                use_virtual,
                frequency,
            )).0;
        numbers::law_joining_keeps_numbers(a, cx, 0, root, intid, use_virtual, frequency);
    }
}

/// The numbers by which ready threads take turns stay in order in every state as well, for as many
/// steps as there are numbers for.
pub proof fn law_numbers_always_last(
    s: MachineView,
    cx: Entry,
    bi: BootInfo,
    blob: Seq<u8>,
    image: Seq<u8>,
    states: Seq<MachineView>,
    n: int,
)
    requires
        unused(s.k),
        !s.k.task.active,
        s.tables.len() == 0,
        bi.wf(),
        kmain::sound_memory(bi),
        start::ranges_apart(bi),
        s.boot(cx, bi, blob, image).1 is Ok,
        0 <= n < states.len(),
        1 + n * NUMBERS_PER_CALL <= u64::MAX,
        states[0] == s.boot(cx, bi, blob, image).0,
        forall|i: int| 0 <= i < states.len() ==> (#[trigger] states[i]).wf(),
        forall|i: int| 0 <= i < states.len() - 1 ==> stepped(states[i], #[trigger] states[i + 1]),
    ensures
        numbered(states[n]),
        states[n].k.sched.ready_sequence <= 1 + n * NUMBERS_PER_CALL,
    decreases n,
{
    if n == 0 {
        start::law_boot_starts_sound(s, cx, bi, blob, image);
    } else {
        law_numbers_always_last(s, cx, bi, blob, image, states, n - 1);
        let a = states[n - 1];
        let b = states[n - 1 + 1];
        assert(stepped(a, b));
        assert(a.wf());
        lemma_numbers_step(a, b);
    }
}

} // verus!
