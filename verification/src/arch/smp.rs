//! Processor bring-up and cross-processor events.
use crate::abi::MAX_CPUS;
use crate::hw::HwOp;
use crate::interrupt::gic::{self, Gic};
use crate::machine::{Dispatch, Entry, Kernel, Machine, MachineView};
use crate::memory::{mmu, physical};
use crate::resource::resources::CpuTopology;
use crate::scheduler::priority;
use crate::util::ArrayUpdate;
use vstd::prelude::*;

verus! {

#[derive(Clone, Copy, Debug, PartialEq, Eq, Structural)]
pub struct Smp {
    /// Number of processors that take part in scheduling.
    pub cpu_count: usize,
    /// One bit for each processor that has come up.
    pub online_mask: u64,
    /// One bit for each processor that has left the task's address space for good.
    pub stopped_mask: u64,
}

impl Smp {
    pub open spec fn wf(self) -> bool {
        self.cpu_count <= 4
    }

    pub open spec fn is_online(self, cpu: usize) -> bool {
        self.online_mask & (1u64 << cpu) != 0
    }

    /// Operations that ask processor `target` to look at its ready threads again.
    pub open spec fn reschedule_ops(self, gic: Gic, me: usize, target: usize) -> Seq<HwOp> {
        if target < self.cpu_count && self.is_online(target) && target != me {
            gic.sgi_ops(gic::SGI_RESCHEDULE, 1u8 << target)
        } else {
            seq![]
        }
    }
}

pub fn cpu_count(smp: &Smp) -> (r: usize)
    ensures
        r == smp.cpu_count,
{
    smp.cpu_count
}

pub fn online_mask(smp: &Smp) -> (r: u64)
    ensures
        r == smp.online_mask,
{
    smp.online_mask
}

pub fn set_cpu_count(smp: &mut Smp, count: usize)
    requires
        count <= 4,
    ensures
        *final(smp) == (Smp { cpu_count: count, ..*old(smp) }),
{
    smp.cpu_count = count;
}

/// Sends the rescheduling SGI to `target`, unless it is this processor or not up.
pub fn send_reschedule(smp: &Smp, gic: &Gic, ops: &mut Vec<HwOp>, me: usize, target: usize)
    requires
        smp.wf(),
    ensures
        final(ops)@ == old(ops)@ + smp.reschedule_ops(*gic, me, target),
{
    if target < smp.cpu_count && smp.online_mask & (1u64 << target) != 0 {
        if target == me {
            return;
        }
        gic::send_sgi(gic, ops, gic::SGI_RESCHEDULE, 1u8 << target);
    }
}

/// Asks every other processor to stop, for the end of the task. Afterwards `all_stopped` says
/// when they have.
pub fn stop_other_cpus(smp: &mut Smp, gic: &Gic, ops: &mut Vec<HwOp>, me: usize)
    requires
        me < 4,
    ensures
        *final(smp) == (Smp { stopped_mask: 1u64 << me, ..*old(smp) }),
        final(ops)@ == old(ops)@ + gic.sgi_others_ops(gic::SGI_TASK_STOP),
{
    smp.stopped_mask = 1u64 << me;
    gic::send_sgi_all_others(gic, ops, gic::SGI_TASK_STOP);
}

/// Whether every processor that came up has stopped.
pub fn all_stopped(smp: &Smp) -> (r: bool)
    ensures
        r == (smp.stopped_mask == smp.online_mask),
{
    smp.stopped_mask == smp.online_mask
}

/// Notes that processor `me` will not touch the task's address space again.
pub fn acknowledge_stop(smp: &mut Smp, me: usize)
    requires
        me < 4,
    ensures
        *final(smp) == (Smp { stopped_mask: old(smp).stopped_mask | (1u64 << me), ..*old(smp) }),
{
    smp.stopped_mask = smp.stopped_mask | (1u64 << me);
}

/// Notes that processor `me` has come up.
pub fn mark_online(smp: &mut Smp, me: usize)
    requires
        me < 4,
    ensures
        *final(smp) == (Smp { online_mask: old(smp).online_mask | (1u64 << me), ..*old(smp) }),
{
    smp.online_mask = smp.online_mask | (1u64 << me);
}

/// Drops stale translations on every processor; the instruction itself reaches all of them.
pub fn shootdown_tlb(m: &mut Machine)
    ensures
        final(m)@ == old(m)@.op(HwOp::FlushTlb),
        old(m)@.wf() ==> final(m)@.wf(),
{
    mmu::flush_el1_tlb(m);
}

/// Pages of the stack that a secondary processor starts on.
pub const STACK_PAGES: u64 = 16;

impl MachineView {
    /// Stacks for the secondary processors below `n`: the table of their tops, in which zero
    /// stands for none.
    pub open spec fn secondary_stacks(self, n: int) -> (MachineView, Option<[u64; 4]>)
        decreases n,
    {
        if n <= 1 {
            (self, Some(crate::util::filled(0)))
        } else {
            let (s, tops) = self.secondary_stacks(n - 1);
            if tops is None {
                (s, None)
            } else {
                let (mem, run) = s.k.mem.aligned_alloc(STACK_PAGES, STACK_PAGES);
                let t = s.with_mem(mem);
                match run {
                    None => (t, None),
                    Some(pa) => (
                        t.op(HwOp::Zero { pa, bytes: 65536 }),
                        Some(tops->0.upd(n - 1, (pa + 65536) as u64)),
                    ),
                }
            }
        }
    }

    /// A secondary processor joins: it uses the shared table, opens its interrupt interface,
    /// sets its timer up, is marked as up, and looks for a thread. Without a timer it stops.
    pub open spec fn secondary_entry(
        self,
        cx: Entry,
        root: u64,
        timer_intid: u32,
        use_virtual: bool,
        frequency: u64,
    ) -> (MachineView, Dispatch) {
        let s = MachineView { k: Kernel { active_table: root, ..self.k }, ..self }.op(
            HwOp::SwitchTable { root, asid: 0 },
        ).with_ops(Gic::cpu_interface_ops());
        let (t, timed) = s.sched_init(cx, timer_intid, use_virtual, frequency);
        if timed {
            MachineView {
                k: Kernel {
                    smp: Smp { online_mask: t.k.smp.online_mask | (1u64 << cx.cpu), ..t.k.smp },
                    ..t.k
                },
                ..t
            }.op(HwOp::Sev).wait_and_activate(cx)
        } else {
            (t, Dispatch::Halt)
        }
    }
}

proof fn lemma_stacks_stop(s: MachineView, k: int, n: int)
    requires
        1 <= k <= n,
        s.secondary_stacks(k).1 is None,
    ensures
        s.secondary_stacks(n) == s.secondary_stacks(k),
    decreases n,
{
    if k < n {
        lemma_stacks_stop(s, k, n - 1);
    }
}

/// Takes a zeroed stack for each secondary processor. `None` if the platform does not have the
/// right number of processors or memory runs out. The processors are to be started one after
/// the other with these stacks.
pub fn boot_secondaries(m: &mut Machine, topology: &CpuTopology) -> (r: Option<[u64; 4]>)
    requires
        old(m)@.wf(),
    ensures
        ({
            let (s, tops) = old(m)@.secondary_stacks(4);
            &&& topology.count != MAX_CPUS ==> r is None && final(m)@ == old(m)@
            &&& topology.count == MAX_CPUS ==> r == tops && final(m)@ == if tops is None {
                s
            } else {
                s.op(HwOp::StoreBarrier)
            }
        }),
        final(m)@.wf(),
{
    if topology.count != MAX_CPUS {
        return None;
    }
    let mut tops: [u64; 4] = [0u64;4];
    proof {
        vstd::arithmetic::power2::lemma2_to64();
        assert(crate::util::power_of_two(16)) by {
            assert(16 == vstd::arithmetic::power2::pow2(4));
        }
    }
    let mut cpu: usize = 1;
    while cpu < MAX_CPUS
        invariant
            1 <= cpu <= 4,
            topology.count == MAX_CPUS,
            m@.wf(),
            crate::util::power_of_two(16),
            (m@, Some(tops)) == old(m)@.secondary_stacks(cpu as int),
        decreases 4 - cpu,
    {
        match physical::alloc_pages_aligned(&mut m.k.mem, STACK_PAGES, STACK_PAGES) {
            None => {
                proof {
                    lemma_stacks_stop(old(m)@, cpu + 1, 4);
                }
                return None;
            },
            Some(pa) => {
                m.ops.push(HwOp::Zero { pa, bytes: 65536 });
                tops[cpu] = pa + 65536;
            },
        }
        cpu = cpu + 1;
    }
    m.ops.push(HwOp::StoreBarrier);
    Some(tops)
}

/// Whether the firmware accepted the request to start a processor, or had started it before.
pub fn start_accepted(result: i64) -> (r: bool)
    ensures
        r == (result == 0 || result == -4),
{
    result == 0 || result == -4
}

/// Whether waiting for a processor has taken too long: the counter has reached the deadline, or
/// the wait went round too often.
pub fn start_expired(now: u64, deadline: u64, spins: u64) -> (r: bool)
    ensures
        r == (now.wrapping_sub(deadline) < 0x8000_0000_0000_0000 || spins >= 100_000_000),
{
    now.wrapping_sub(deadline) < 0x8000_0000_0000_0000 || spins >= 100_000_000
}

/// Whether every processor of the platform is up.
pub fn all_online(smp: &Smp, count: usize) -> (r: bool)
    requires
        count <= 4,
    ensures
        r == (smp.online_mask == ((1u64 << count) - 1)),
{
    let bit: u64 = 1u64 << count;
    assert(1u64 << count >= 1) by (bit_vector)
        requires
            count <= 4,
    ;
    smp.online_mask == bit - 1
}

/// A secondary processor enters the kernel: it joins the others and looks for a thread. It stops
/// if its timer cannot be set up.
pub fn secondary_entry(
    m: &mut Machine,
    cx: &Entry,
    root: u64,
    timer_intid: u32,
    use_virtual: bool,
    frequency: u64,
) -> (r: Dispatch)
    requires
        old(m)@.wf(),
        cx.cpu < 4,
    ensures
        (final(m)@, r) == old(m)@.secondary_entry(*cx, root, timer_intid, use_virtual, frequency),
        final(m)@.wf(),
{
    mmu::activate(m, root);
    gic::init_cpu_interface(&mut m.ops);
    if !priority::init(m, cx, timer_intid, use_virtual, frequency) {
        return Dispatch::Halt;
    }
    mark_online(&mut m.k.smp, cx.cpu);
    m.ops.push(HwOp::Sev);
    priority::idle_loop(m, cx)
}

} // verus!
