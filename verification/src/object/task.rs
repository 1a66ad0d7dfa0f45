//! The resources of the one EL0 task: what it was granted and what it has taken.
use crate::abi;
use crate::hw::HwOp;
use crate::interrupt::gic::{self, Gic};
use crate::machine::{Fault, Machine, MachineView};
use crate::memory::physical::PhysicalMemory;
use crate::memory::{frame, mmu, physical, vspace};
use crate::object::{ipc, thread};
use crate::scheduler::priority;
use crate::util::ArrayUpdate;
use vstd::prelude::*;

verus! {

pub const MAX_MMIO_MAPPINGS: usize = 16;

pub const MAX_IRQ_BINDINGS: usize = 16;

pub const MAX_OWNED_MAPPINGS: usize = 12;

pub const MAX_DMA_MAPPINGS: usize = 64;

pub const MAX_MMIO_GRANTS: usize = 8;

pub const MAX_IRQ_GRANTS: usize = 32;

/// A physical device range that the task may map.
#[derive(Clone, Copy, Debug, PartialEq, Eq, Structural)]
pub struct MmioGrant {
    pub base: u64,
    pub size: u64,
}

/// A shared interrupt that the task may bind, and its trigger flags.
#[derive(Clone, Copy, Debug, PartialEq, Eq, Structural)]
pub struct IrqGrant {
    pub intid: u32,
    pub flags: u32,
}

/// Pages that hold the task's program.
#[derive(Clone, Copy, Debug, PartialEq, Eq, Structural)]
pub struct OwnedPages {
    pub va: u64,
    pub pa: u64,
    pub pages: u64,
    /// The pages hold code.
    pub executable: bool,
}

#[derive(Clone, Copy, Debug, PartialEq, Eq, Structural)]
pub struct UserMapping {
    pub va: u64,
    pub pages: u64,
}

#[derive(Clone, Copy, Debug, PartialEq, Eq, Structural)]
pub struct DmaMapping {
    pub va: u64,
    pub pa: u64,
    pub pages: u64,
}

#[derive(Clone, Copy, Debug, PartialEq, Eq, Structural)]
pub struct IrqBinding {
    pub intid: u32,
    pub notification: u64,
    pub badge: u64,
    /// The interrupt was delivered and the task has not acknowledged it yet.
    pub awaiting_ack: bool,
}

#[derive(Clone, Copy)]
#[verifier::ext_equal]
pub struct TaskResources {
    pub active: bool,
    pub mmio_grants: [MmioGrant; 8],
    pub mmio_grant_count: usize,
    pub irq_grants: [IrqGrant; 32],
    pub irq_grant_count: usize,
    pub owned: [OwnedPages; 12],
    pub owned_count: usize,
    pub stack_pa: u64,
    pub boot_info_pa: u64,
    pub heap_pa: u64,
    pub mmio: [UserMapping; 16],
    pub mmio_count: usize,
    pub dma: [DmaMapping; 64],
    pub dma_count: usize,
    pub irq_bindings: [IrqBinding; 16],
    pub irq_binding_count: usize,
}

impl OwnedPages {
    pub open spec fn wf(self) -> bool {
        PhysicalMemory::returnable(self.pa, self.pages) && self.va + self.pages * 4096 <= u64::MAX
    }
}

impl DmaMapping {
    pub open spec fn wf(self) -> bool {
        PhysicalMemory::returnable(self.pa, self.pages) && self.va + self.pages * 4096 <= u64::MAX
    }
}

impl UserMapping {
    pub open spec fn wf(self) -> bool {
        self.va + self.pages * 4096 <= u64::MAX
    }
}

impl TaskResources {
    pub open spec fn wf(self) -> bool {
        &&& self.mmio_grant_count <= 8
        &&& self.irq_grant_count <= 32
        &&& self.owned_count <= 12
        &&& self.mmio_count <= 16
        &&& self.dma_count <= 64
        &&& self.irq_binding_count <= 16
        &&& PhysicalMemory::returnable(self.stack_pa, 16)
        &&& PhysicalMemory::returnable(self.boot_info_pa, 1)
        &&& PhysicalMemory::returnable(self.heap_pa, 1024)
        &&& forall|i: int| 0 <= i < self.owned_count ==> (#[trigger] self.owned@[i]).wf()
        &&& forall|i: int| 0 <= i < self.mmio_count ==> (#[trigger] self.mmio@[i]).wf()
        &&& forall|i: int| 0 <= i < self.dma_count ==> (#[trigger] self.dma@[i]).wf()
    }

    /// The one resource owner, while a task is active; zero means nobody.
    pub open spec fn owner(self) -> u32 {
        if self.active {
            1
        } else {
            0
        }
    }
}

/// The one resource owner, 1, while a task is active; 0 otherwise.
pub fn current_owner(task: &TaskResources) -> (r: u32)
    ensures
        r == task.owner(),
{
    if task.active {
        1
    } else {
        0
    }
}

impl TaskResources {
    /// An interrupt is bound to the notification that `handle` names.
    pub open spec fn is_bound(self, handle: u64) -> bool {
        exists|i: int|
            0 <= i < self.irq_binding_count && (#[trigger] self.irq_bindings@[i]).notification
                == handle
    }
}

/// Whether some interrupt is still bound to the notification.
pub fn notification_is_bound(task: &TaskResources, notification: u64) -> (r: bool)
    requires
        task.wf(),
    ensures
        r == task.is_bound(notification),
{
    let mut index: usize = 0;
    while index < task.irq_binding_count
        invariant
            task.wf(),
            index <= task.irq_binding_count,
            forall|i: int|
                0 <= i < index ==> (#[trigger] task.irq_bindings@[i]).notification != notification,
        decreases task.irq_binding_count - index,
    {
        if task.irq_bindings[index].notification == notification {
            assert(task.irq_bindings@[index as int].notification == notification);
            return true;
        }
        index = index + 1;
    }
    false
}

impl MmioGrant {
    /// The range lies inside the granted one, which itself ends below 2^64.
    pub open spec fn holds(self, base: int, end: int) -> bool {
        self.base + self.size <= u64::MAX && self.base <= base && end <= self.base + self.size
    }
}

/// The byte range `[va, va + pages * 4096)` meets the run of `count` pages at `start`.
pub open spec fn overlaps(va: int, pages: int, start: int, count: int) -> bool {
    va < start + count * 4096 && va + pages * 4096 > start
}

impl TaskResources {
    /// The whole physical range lies inside one grant.
    pub open spec fn grants(self, base: u64, size: u64) -> bool {
        &&& size != 0
        &&& base + size <= u64::MAX
        &&& self.active
        &&& exists|i: int|
            0 <= i < self.mmio_grant_count && (#[trigger] self.mmio_grants@[i]).holds(
                base as int,
                base + size,
            )
    }

    /// The run of pages meets one that the task already has, or one that is reserved for it.
    pub open spec fn taken(self, va: int, pages: int) -> bool {
        ||| exists|i: int|
            0 <= i < self.owned_count && overlaps(
                va,
                pages,
                (#[trigger] self.owned@[i]).va as int,
                self.owned@[i].pages as int,
            )
        ||| exists|i: int|
            0 <= i < self.mmio_count && overlaps(
                va,
                pages,
                (#[trigger] self.mmio@[i]).va as int,
                self.mmio@[i].pages as int,
            )
        ||| exists|i: int|
            0 <= i < self.dma_count && overlaps(
                va,
                pages,
                (#[trigger] self.dma@[i]).va as int,
                self.dma@[i].pages as int,
            )
        ||| overlaps(va, pages, abi::USER_BOOT_INFO_VA as int, 1)
        ||| overlaps(va, pages, abi::USER_HEAP_BASE as int, 1024)
        ||| overlaps(va, pages, abi::USER_STACK_TOP - 16 * 4096, 16)
    }

    /// A device or DMA mapping may be placed at the run of pages.
    pub open spec fn available(self, va: u64, pages: u64) -> bool {
        &&& pages != 0
        &&& abi::USER_BASE <= va
        &&& va + pages * 4096 <= abi::USER_WINDOW_END
        &&& self.active
        &&& !self.taken(va as int, pages as int)
    }

    pub open spec fn with_mmio(self, va: u64, pages: u64) -> TaskResources {
        TaskResources {
            mmio: self.mmio.upd(self.mmio_count as int, UserMapping { va, pages }),
            mmio_count: (self.mmio_count + 1) as usize,
            ..self
        }
    }

    /// The first device mapping at exactly this run, at place `from` or later.
    pub open spec fn mmio_at(self, va: u64, pages: u64, from: int) -> Option<int>
        decreases self.mmio_count - from,
    {
        if from < 0 || from >= self.mmio_count {
            None
        } else if self.mmio@[from].va == va && self.mmio@[from].pages == pages {
            Some(from)
        } else {
            self.mmio_at(va, pages, from + 1)
        }
    }

    /// Device mapping `i` goes; the last one takes its place.
    pub open spec fn without_mmio(self, i: int) -> TaskResources {
        let last = self.mmio_count - 1;
        TaskResources {
            mmio: self.mmio.upd(i, self.mmio@[last]).upd(last, UserMapping { va: 0, pages: 0 }),
            mmio_count: last as usize,
            ..self
        }
    }

    pub open spec fn with_dma(self, va: u64, pa: u64, pages: u64) -> TaskResources {
        TaskResources {
            dma: self.dma.upd(self.dma_count as int, DmaMapping { va, pa, pages }),
            dma_count: (self.dma_count + 1) as usize,
            ..self
        }
    }

    /// The first DMA mapping at exactly this run, at place `from` or later.
    pub open spec fn dma_at(self, va: u64, pages: u64, from: int) -> Option<int>
        decreases self.dma_count - from,
    {
        if from < 0 || from >= self.dma_count {
            None
        } else if self.dma@[from].va == va && self.dma@[from].pages == pages {
            Some(from)
        } else {
            self.dma_at(va, pages, from + 1)
        }
    }

    pub open spec fn without_dma(self, i: int) -> TaskResources {
        let last = self.dma_count - 1;
        TaskResources {
            dma: self.dma.upd(i, self.dma@[last]).upd(last, DmaMapping { va: 0, pa: 0, pages: 0 }),
            dma_count: last as usize,
            ..self
        }
    }

    /// The first grant of interrupt `intid`, at place `from` or later.
    pub open spec fn irq_grant(self, intid: u32, from: int) -> Option<int>
        decreases self.irq_grant_count - from,
    {
        if from < 0 || from >= self.irq_grant_count {
            None
        } else if self.irq_grants@[from].intid == intid {
            Some(from)
        } else {
            self.irq_grant(intid, from + 1)
        }
    }

    /// The binding of interrupt `intid`, at place `from` or later.
    pub open spec fn binding(self, intid: u32, from: int) -> Option<int>
        decreases self.irq_binding_count - from,
    {
        if from < 0 || from >= self.irq_binding_count {
            None
        } else if self.irq_bindings@[from].intid == intid {
            Some(from)
        } else {
            self.binding(intid, from + 1)
        }
    }

    pub open spec fn with_binding(self, binding: IrqBinding) -> TaskResources {
        TaskResources {
            irq_bindings: self.irq_bindings.upd(self.irq_binding_count as int, binding),
            irq_binding_count: (self.irq_binding_count + 1) as usize,
            ..self
        }
    }

    /// Binding `i` goes; the last one takes its place.
    pub open spec fn without_binding(self, i: int) -> TaskResources {
        let last = self.irq_binding_count - 1;
        TaskResources {
            irq_bindings: self.irq_bindings.upd(i, self.irq_bindings@[last]),
            irq_binding_count: last as usize,
            ..self
        }
    }

    /// Binding `i` waits, or no longer waits, for the task's acknowledgement.
    pub open spec fn with_awaiting(self, i: int, awaiting_ack: bool) -> TaskResources {
        TaskResources {
            irq_bindings: self.irq_bindings.upd(
                i,
                IrqBinding { awaiting_ack, ..self.irq_bindings@[i] },
            ),
            ..self
        }
    }

    /// Operations that disable the first `k` bound interrupts.
    pub open spec fn disable_bound(self, gic: Gic, k: int) -> Seq<HwOp>
        decreases k,
    {
        if k <= 0 {
            seq![]
        } else {
            self.disable_bound(gic, k - 1) + gic.disable_ops(self.irq_bindings@[k - 1].intid)
        }
    }
}

fn find_binding(task: &TaskResources, intid: u32) -> (r: Option<usize>)
    requires
        task.wf(),
    ensures
        match r {
            Some(i) => i < task.irq_binding_count && task.binding(intid, 0) == Some(i as int),
            None => task.binding(intid, 0) is None,
        },
{
    let mut i: usize = 0;
    while i < task.irq_binding_count
        invariant
            task.wf(),
            i <= task.irq_binding_count,
            task.binding(intid, 0) == task.binding(intid, i as int),
        decreases task.irq_binding_count - i,
    {
        if task.irq_bindings[i].intid == intid {
            return Some(i);
        }
        i = i + 1;
    }
    None
}

impl TaskResources {
    /// Nothing granted, nothing taken.
    pub open spec fn none() -> TaskResources {
        TaskResources {
            active: false,
            mmio_grants: crate::util::filled(MmioGrant { base: 0, size: 0 }),
            mmio_grant_count: 0,
            irq_grants: crate::util::filled(IrqGrant { intid: 0, flags: 0 }),
            irq_grant_count: 0,
            owned: crate::util::filled(
                OwnedPages { va: 0, pa: 0, pages: 0, executable: false },
            ),
            owned_count: 0,
            stack_pa: 0,
            boot_info_pa: 0,
            heap_pa: 0,
            mmio: crate::util::filled(UserMapping { va: 0, pages: 0 }),
            mmio_count: 0,
            dma: crate::util::filled(DmaMapping { va: 0, pa: 0, pages: 0 }),
            dma_count: 0,
            irq_bindings: crate::util::filled(
                IrqBinding { intid: 0, notification: 0, badge: 0, awaiting_ack: false },
            ),
            irq_binding_count: 0,
        }
    }

    /// A new task with its program, its fixed memory and its grants, as many as there is room
    /// for.
    pub open spec fn installed(
        segments: Seq<OwnedPages>,
        stack_pa: u64,
        boot_info_pa: u64,
        heap_pa: u64,
        mmio_grants: Seq<MmioGrant>,
        irq_grants: Seq<IrqGrant>,
    ) -> TaskResources {
        let none = TaskResources::none();
        TaskResources {
            active: true,
            stack_pa,
            boot_info_pa,
            heap_pa,
            owned: crate::util::with_prefix(none.owned, segments, capped(segments.len(), 12) as int),
            owned_count: capped(segments.len(), 12) as usize,
            mmio_grants: crate::util::with_prefix(
                none.mmio_grants,
                mmio_grants,
                capped(mmio_grants.len(), 8) as int,
            ),
            mmio_grant_count: capped(mmio_grants.len(), 8) as usize,
            irq_grants: crate::util::with_prefix(
                none.irq_grants,
                irq_grants,
                capped(irq_grants.len(), 32) as int,
            ),
            irq_grant_count: capped(irq_grants.len(), 32) as usize,
            ..none
        }
    }
}

/// The table of a kernel that has no task yet.
pub fn no_task() -> (r: TaskResources)
    ensures
        r == TaskResources::none(),
        r.wf(),
{
    TaskResources {
        active: false,
        mmio_grants: [MmioGrant { base: 0, size: 0 }; 8],
        mmio_grant_count: 0,
        irq_grants: [IrqGrant { intid: 0, flags: 0 }; 32],
        irq_grant_count: 0,
        owned: [OwnedPages { va: 0, pa: 0, pages: 0, executable: false }; 12],
        owned_count: 0,
        stack_pa: 0,
        boot_info_pa: 0,
        heap_pa: 0,
        mmio: [UserMapping { va: 0, pages: 0 }; 16],
        mmio_count: 0,
        dma: [DmaMapping { va: 0, pa: 0, pages: 0 }; 64],
        dma_count: 0,
        irq_bindings: [IrqBinding {
            intid: 0,
            notification: 0,
            badge: 0,
            awaiting_ack: false,
        }; 16],
        irq_binding_count: 0,
    }
}

/// The smaller of a length and a capacity.
pub open spec fn capped(len: nat, capacity: nat) -> nat {
    if len < capacity {
        len
    } else {
        capacity
    }
}

/// Records what the task owns and may use, before it first runs. What exceeds a table's capacity
/// is left out.
pub fn install(
    task: &mut TaskResources,
    segments: &[OwnedPages],
    stack_pa: u64,
    boot_info_pa: u64,
    heap_pa: u64,
    mmio_grants: &[MmioGrant],
    irq_grants: &[IrqGrant],
)
    requires
        forall|i: int| 0 <= i < segments@.len() ==> (#[trigger] segments@[i]).wf(),
        PhysicalMemory::returnable(stack_pa, 16),
        PhysicalMemory::returnable(boot_info_pa, 1),
        PhysicalMemory::returnable(heap_pa, 1024),
    ensures
        *final(task) == TaskResources::installed(
            segments@,
            stack_pa,
            boot_info_pa,
            heap_pa,
            mmio_grants@,
            irq_grants@,
        ),
        final(task).wf(),
{
    let mut fresh: TaskResources = no_task();
    fresh.active = true;
    fresh.stack_pa = stack_pa;
    fresh.boot_info_pa = boot_info_pa;
    fresh.heap_pa = heap_pa;
    let ghost start = fresh;
    let mut index: usize = 0;
    while index < segments.len() && index < MAX_OWNED_MAPPINGS
        invariant
            index <= 12,
            index <= segments@.len(),
            fresh == (TaskResources { owned: fresh.owned, ..start }),
            fresh.owned == crate::util::with_prefix(start.owned, segments@, index as int),
        decreases 12 - index,
    {
        fresh.owned[index] = segments[index];
        index = index + 1;
    }
    fresh.owned_count = index;
    let ghost middle = fresh;
    index = 0;
    while index < mmio_grants.len() && index < MAX_MMIO_GRANTS
        invariant
            index <= 8,
            index <= mmio_grants@.len(),
            fresh == (TaskResources { mmio_grants: fresh.mmio_grants, ..middle }),
            fresh.mmio_grants == crate::util::with_prefix(
                middle.mmio_grants,
                mmio_grants@,
                index as int,
            ),
        decreases 8 - index,
    {
        fresh.mmio_grants[index] = mmio_grants[index];
        index = index + 1;
    }
    fresh.mmio_grant_count = index;
    let ghost last = fresh;
    index = 0;
    while index < irq_grants.len() && index < MAX_IRQ_GRANTS
        invariant
            index <= 32,
            index <= irq_grants@.len(),
            fresh == (TaskResources { irq_grants: fresh.irq_grants, ..last }),
            fresh.irq_grants == crate::util::with_prefix(
                last.irq_grants,
                irq_grants@,
                index as int,
            ),
        decreases 32 - index,
    {
        fresh.irq_grants[index] = irq_grants[index];
        index = index + 1;
    }
    fresh.irq_grant_count = index;
    proof {
        crate::util::lemma_with_prefix(start.owned, segments@, fresh.owned_count as int);
    }
    assert forall|i: int| 0 <= i < fresh.owned_count implies (#[trigger] fresh.owned@[i]).wf() by {
        assert(segments@[i].wf());
    }
    *task = fresh;
}

/// Whether the whole physical range lies inside one grant of the task.
pub fn is_mmio_granted(task: &TaskResources, base: u64, size: u64) -> (r: bool)
    requires
        task.wf(),
    ensures
        r == task.grants(base, size),
{
    if size == 0 {
        return false;
    }
    let end: u64 = match base.checked_add(size) {
        None => {
            return false;
        },
        Some(end) => end,
    };
    if !task.active {
        return false;
    }
    let mut index: usize = 0;
    while index < task.mmio_grant_count
        invariant
            task.wf(),
            task.active,
            size != 0,
            end == base + size,
            index <= task.mmio_grant_count,
            forall|i: int|
                0 <= i < index ==> !(#[trigger] task.mmio_grants@[i]).holds(
                    base as int,
                    base + size,
                ),
        decreases task.mmio_grant_count - index,
    {
        let grant: MmioGrant = task.mmio_grants[index];
        if let Some(grant_end) = grant.base.checked_add(grant.size) {
            if base >= grant.base && end <= grant_end {
                assert(task.mmio_grants@[index as int].holds(base as int, base + size));
                return true;
            }
        }
        index = index + 1;
    }
    false
}

/// Whether one more device mapping can be recorded.
pub fn can_record_mmio(task: &TaskResources) -> (r: bool)
    ensures
        r == (task.active && task.mmio_count < 16),
{
    task.active && task.mmio_count < MAX_MMIO_MAPPINGS
}

/// Records a device mapping that was made.
pub fn record_mmio(task: &mut TaskResources, user_va: u64, pages: u64)
    requires
        old(task).wf(),
        old(task).mmio_count < 16,
        user_va + pages * 4096 <= u64::MAX,
    ensures
        *final(task) == old(task).with_mmio(user_va, pages),
        final(task).wf(),
{
    let index: usize = task.mmio_count;
    task.mmio[index] = UserMapping { va: user_va, pages };
    task.mmio_count = index + 1;
}

/// Forgets the device mapping at exactly this run; whether there was one.
pub fn remove_mmio(task: &mut TaskResources, user_va: u64, pages: u64) -> (r: bool)
    requires
        old(task).wf(),
    ensures
        match old(task).mmio_at(user_va, pages, 0) {
            None => !r && *final(task) == *old(task),
            Some(i) => r && *final(task) == old(task).without_mmio(i) && user_va + pages * 4096
                <= u64::MAX,
        },
        final(task).wf(),
{
    let mut index: usize = 0;
    while index < task.mmio_count
        invariant
            *task == *old(task),
            task.wf(),
            index <= task.mmio_count,
            task.mmio_at(user_va, pages, 0) == task.mmio_at(user_va, pages, index as int),
        decreases task.mmio_count - index,
    {
        let mapping: UserMapping = task.mmio[index];
        if mapping.va == user_va && mapping.pages == pages {
            assert(task.mmio@[index as int].wf());
            let last: usize = task.mmio_count - 1;
            assert(task.mmio@[last as int].wf());
            task.mmio_count = last;
            task.mmio[index] = task.mmio[last];
            task.mmio[last] = UserMapping { va: 0, pages: 0 };
            return true;
        }
        index = index + 1;
    }
    false
}

fn meets(va: u64, end: u64, start: u64, count: u64) -> (r: bool)
    requires
        start + count * 4096 <= u64::MAX,
        va <= end,
    ensures
        r == (va < start + count * 4096 && end > start),
{
    let other_end: u64 = start + count * 4096;
    va < other_end && end > start
}

/// Whether a device or DMA mapping may be placed at the run of pages: inside the user window and
/// clear of everything that the task has or that is reserved for it.
pub fn range_available(task: &TaskResources, va: u64, pages: u64) -> (r: bool)
    requires
        task.wf(),
        pages <= 0xf_ffff_ffff_ffff,
    ensures
        r == task.available(va, pages),
{
    if pages == 0 {
        return false;
    }
    let end: u64 = match va.checked_add(pages * 4096) {
        None => {
            return false;
        },
        Some(end) => end,
    };
    if va < abi::USER_BASE || end > abi::USER_WINDOW_END {
        return false;
    }
    if !task.active {
        return false;
    }
    let mut index: usize = 0;
    while index < task.owned_count
        invariant
            task.wf(),
            end == va + pages * 4096,
            index <= task.owned_count,
            forall|i: int|
                0 <= i < index ==> !overlaps(
                    va as int,
                    pages as int,
                    (#[trigger] task.owned@[i]).va as int,
                    task.owned@[i].pages as int,
                ),
        decreases task.owned_count - index,
    {
        let item: OwnedPages = task.owned[index];
        assert(task.owned@[index as int].wf());
        if meets(va, end, item.va, item.pages) {
            assert(overlaps(
                va as int,
                pages as int,
                task.owned@[index as int].va as int,
                task.owned@[index as int].pages as int,
            ));
            return false;
        }
        index = index + 1;
    }
    if meets(va, end, abi::USER_BOOT_INFO_VA, 1) || meets(
        va,
        end,
        abi::USER_HEAP_BASE,
        abi::USER_HEAP_SIZE / 4096,
    ) || meets(
        va,
        end,
        abi::USER_STACK_TOP - abi::USER_STACK_PAGES * 4096,
        abi::USER_STACK_PAGES,
    ) {
        return false;
    }
    index = 0;
    while index < task.mmio_count
        invariant
            task.wf(),
            end == va + pages * 4096,
            index <= task.mmio_count,
            forall|i: int|
                0 <= i < index ==> !overlaps(
                    va as int,
                    pages as int,
                    (#[trigger] task.mmio@[i]).va as int,
                    task.mmio@[i].pages as int,
                ),
        decreases task.mmio_count - index,
    {
        let item: UserMapping = task.mmio[index];
        assert(task.mmio@[index as int].wf());
        if meets(va, end, item.va, item.pages) {
            assert(overlaps(
                va as int,
                pages as int,
                task.mmio@[index as int].va as int,
                task.mmio@[index as int].pages as int,
            ));
            return false;
        }
        index = index + 1;
    }
    index = 0;
    while index < task.dma_count
        invariant
            task.wf(),
            end == va + pages * 4096,
            index <= task.dma_count,
            forall|i: int|
                0 <= i < index ==> !overlaps(
                    va as int,
                    pages as int,
                    (#[trigger] task.dma@[i]).va as int,
                    task.dma@[i].pages as int,
                ),
        decreases task.dma_count - index,
    {
        let item: DmaMapping = task.dma[index];
        assert(task.dma@[index as int].wf());
        if meets(va, end, item.va, item.pages) {
            assert(overlaps(
                va as int,
                pages as int,
                task.dma@[index as int].va as int,
                task.dma@[index as int].pages as int,
            ));
            return false;
        }
        index = index + 1;
    }
    true
}

/// Records DMA memory; false without an active task or a free entry.
pub fn record_dma(task: &mut TaskResources, va: u64, pa: u64, pages: u64) -> (r: bool)
    requires
        old(task).wf(),
        va + pages * 4096 <= u64::MAX,
        PhysicalMemory::returnable(pa, pages),
    ensures
        r == (old(task).active && old(task).dma_count < 64),
        *final(task) == if r {
            old(task).with_dma(va, pa, pages)
        } else {
            *old(task)
        },
        final(task).wf(),
{
    if !task.active || task.dma_count == MAX_DMA_MAPPINGS {
        return false;
    }
    let place: usize = task.dma_count;
    task.dma[place] = DmaMapping { va, pa, pages };
    task.dma_count = place + 1;
    true
}

/// Forgets the DMA memory at exactly this run and returns its physical address.
pub fn take_dma(task: &mut TaskResources, va: u64, pages: u64) -> (r: Option<u64>)
    requires
        old(task).wf(),
    ensures
        match old(task).dma_at(va, pages, 0) {
            None => r is None && *final(task) == *old(task),
            Some(i) => r == Some(old(task).dma@[i].pa) && *final(task) == old(task).without_dma(i)
                && va + pages * 4096 <= u64::MAX && PhysicalMemory::returnable(r->0, pages),
        },
        final(task).wf(),
{
    let mut index: usize = 0;
    while index < task.dma_count
        invariant
            *task == *old(task),
            task.wf(),
            index <= task.dma_count,
            task.dma_at(va, pages, 0) == task.dma_at(va, pages, index as int),
        decreases task.dma_count - index,
    {
        let item: DmaMapping = task.dma[index];
        if item.va == va && item.pages == pages {
            assert(task.dma@[index as int].wf());
            let last: usize = task.dma_count - 1;
            assert(task.dma@[last as int].wf());
            task.dma_count = last;
            task.dma[index] = task.dma[last];
            task.dma[last] = DmaMapping { va: 0, pa: 0, pages: 0 };
            return Some(item.pa);
        }
        index = index + 1;
    }
    None
}

/// The trigger flags of an interrupt that was granted to the task.
pub fn irq_flags(task: &TaskResources, intid: u32) -> (r: Option<u32>)
    requires
        task.wf(),
    ensures
        r == match task.irq_grant(intid, 0) {
            Some(i) => if task.active {
                Some(task.irq_grants@[i].flags)
            } else {
                None
            },
            None => None,
        },
{
    if !task.active {
        return None;
    }
    let mut index: usize = 0;
    while index < task.irq_grant_count
        invariant
            task.wf(),
            task.active,
            index <= task.irq_grant_count,
            task.irq_grant(intid, 0) == task.irq_grant(intid, index as int),
        decreases task.irq_grant_count - index,
    {
        let grant: IrqGrant = task.irq_grants[index];
        if grant.intid == intid {
            return Some(grant.flags);
        }
        index = index + 1;
    }
    None
}

/// Binds an interrupt to a notification; false if it is bound already or the table is full.
pub fn bind_irq(task: &mut TaskResources, intid: u32, notification: u64, badge: u64) -> (r: bool)
    requires
        old(task).wf(),
    ensures
        r == (old(task).active && old(task).irq_binding_count < 16 && old(task).binding(
            intid,
            0,
        ) is None),
        *final(task) == if r {
            old(task).with_binding(IrqBinding { intid, notification, badge, awaiting_ack: false })
        } else {
            *old(task)
        },
        final(task).wf(),
{
    if !task.active || task.irq_binding_count >= MAX_IRQ_BINDINGS {
        return false;
    }
    if find_binding(task, intid).is_some() {
        return false;
    }
    let place: usize = task.irq_binding_count;
    task.irq_bindings[place] = IrqBinding { intid, notification, badge, awaiting_ack: false };
    task.irq_binding_count = place + 1;
    true
}

/// Disables and unbinds an interrupt; whether it was bound.
pub fn unbind_irq(task: &mut TaskResources, gic: &Gic, ops: &mut Vec<HwOp>, intid: u32) -> (r: bool)
    requires
        old(task).wf(),
    ensures
        match old(task).binding(intid, 0) {
            Some(i) => if old(task).active {
                r && *final(task) == old(task).without_binding(i) && final(ops)@ == old(ops)@
                    + gic.disable_ops(intid)
            } else {
                !r && *final(task) == *old(task) && final(ops)@ == old(ops)@
            },
            None => !r && *final(task) == *old(task) && final(ops)@ == old(ops)@,
        },
        final(task).wf(),
{
    if !task.active {
        return false;
    }
    match find_binding(task, intid) {
        None => false,
        Some(i) => {
            gic::disable_spi(gic, ops, intid);
            let last: usize = task.irq_binding_count - 1;
            task.irq_binding_count = last;
            task.irq_bindings[i] = task.irq_bindings[last];
            true
        },
    }
}

pub fn has_binding(task: &TaskResources, intid: u32) -> (r: bool)
    requires
        task.wf(),
    ensures
        r == (task.binding(intid, 0) is Some),
{
    find_binding(task, intid).is_some()
}

/// The notification and badge that an interrupt is delivered to.
pub fn irq_notification(task: &TaskResources, intid: u32) -> (r: Option<(u64, u64)>)
    requires
        task.wf(),
    ensures
        r == match task.binding(intid, 0) {
            Some(i) => Some((task.irq_bindings@[i].notification, task.irq_bindings@[i].badge)),
            None => None,
        },
{
    match find_binding(task, intid) {
        Some(i) => Some((task.irq_bindings[i].notification, task.irq_bindings[i].badge)),
        None => None,
    }
}

/// Notes that an interrupt was delivered and awaits the task's acknowledgement.
pub fn record_irq_pending(task: &mut TaskResources, intid: u32)
    requires
        old(task).wf(),
    ensures
        *final(task) == match old(task).binding(intid, 0) {
            Some(i) => old(task).with_awaiting(i, true),
            None => *old(task),
        },
        final(task).wf(),
{
    if let Some(i) = find_binding(task, intid) {
        task.irq_bindings[i].awaiting_ack = true;
    }
}

/// Accepts the task's acknowledgement of a delivered interrupt and enables it again. False when
/// there was none to acknowledge.
pub fn ack_irq(task: &mut TaskResources, gic: &Gic, ops: &mut Vec<HwOp>, intid: u32) -> (r: bool)
    requires
        old(task).wf(),
    ensures
        match old(task).binding(intid, 0) {
            Some(i) => if old(task).irq_bindings@[i].awaiting_ack {
                r && *final(task) == old(task).with_awaiting(i, false) && final(ops)@ == old(ops)@
                    + gic.enable_ops(intid)
            } else {
                !r && *final(task) == *old(task) && final(ops)@ == old(ops)@
            },
            None => !r && *final(task) == *old(task) && final(ops)@ == old(ops)@,
        },
        final(task).wf(),
{
    match find_binding(task, intid) {
        None => false,
        Some(i) => {
            if !task.irq_bindings[i].awaiting_ack {
                return false;
            }
            task.irq_bindings[i].awaiting_ack = false;
            gic::enable_spi(gic, ops, intid);
            true
        },
    }
}

/// Disables and unbinds every interrupt of the task.
pub fn cleanup_irqs(task: &mut TaskResources, gic: &Gic, ops: &mut Vec<HwOp>)
    requires
        old(task).wf(),
    ensures
        *final(task) == (TaskResources { irq_binding_count: 0, ..*old(task) }),
        final(ops)@ == old(ops)@ + old(task).disable_bound(
            *gic,
            old(task).irq_binding_count as int,
        ),
        final(task).wf(),
{
    let mut i: usize = 0;
    while i < task.irq_binding_count
        invariant
            *task == *old(task),
            task.wf(),
            i <= task.irq_binding_count,
            ops@ == old(ops)@ + task.disable_bound(*gic, i as int),
        decreases task.irq_binding_count - i,
    {
        gic::disable_spi(gic, ops, task.irq_bindings[i].intid);
        i = i + 1;
        assert(ops@ =~= old(ops)@ + task.disable_bound(*gic, i as int));
    }
    task.irq_binding_count = 0;
}

proof fn lemma_overlap_with_itself(va: int, pages: int)
    requires
        pages > 0,
    ensures
        overlaps(va, pages, va, pages),
{
}

/// A run of pages that was recorded as a device mapping or as DMA memory is no longer available.
pub proof fn law_recorded_range_is_taken(task: TaskResources, va: u64, pa: u64, pages: u64)
    requires
        task.wf(),
        task.available(va, pages),
    ensures
        task.mmio_count < 16 ==> !task.with_mmio(va, pages).available(va, pages),
        task.dma_count < 64 ==> !task.with_dma(va, pa, pages).available(va, pages),
{
    lemma_overlap_with_itself(va as int, pages as int);
    if task.mmio_count < 16 {
        let t = task.with_mmio(va, pages);
        assert(t.mmio@[task.mmio_count as int] == (UserMapping { va, pages }));
        assert(t.taken(va as int, pages as int));
    }
    if task.dma_count < 64 {
        let t = task.with_dma(va, pa, pages);
        assert(t.dma@[task.dma_count as int] == (DmaMapping { va, pa, pages }));
        assert(t.taken(va as int, pages as int));
    }
}

/// Every interrupt is bound at most once.
pub open spec fn bound_once(task: TaskResources) -> bool {
    forall|i: int, j: int|
        0 <= i < j < task.irq_binding_count ==> (#[trigger] task.irq_bindings@[i]).intid != (
        #[trigger] task.irq_bindings@[j]).intid
}

proof fn lemma_binding(task: TaskResources, intid: u32, from: int)
    requires
        0 <= from,
        task.wf(),
    ensures
        match task.binding(intid, from) {
            Some(i) => from <= i < task.irq_binding_count && task.irq_bindings@[i].intid == intid,
            None => forall|i: int|
                from <= i < task.irq_binding_count ==> (#[trigger] task.irq_bindings@[i]).intid
                    != intid,
        },
    decreases task.irq_binding_count - from,
{
    if from < task.irq_binding_count && task.irq_bindings@[from].intid != intid {
        lemma_binding(task, intid, from + 1);
    }
}

/// Binding and unbinding keep every interrupt bound at most once, and an unbound interrupt has
/// no binding left.
pub proof fn law_bound_once(task: TaskResources, binding: IrqBinding, intid: u32)
    requires
        task.wf(),
        bound_once(task),
    ensures
        task.irq_binding_count < 16 && task.binding(binding.intid, 0) is None ==> bound_once(
            task.with_binding(binding),
        ),
        task.binding(intid, 0) is Some ==> {
            let t = task.without_binding(task.binding(intid, 0)->0);
            bound_once(t) && t.binding(intid, 0) is None
        },
{
    lemma_binding(task, binding.intid, 0);
    lemma_binding(task, intid, 0);
    if let Some(i) = task.binding(intid, 0) {
        let t = task.without_binding(i);
        assert forall|x: int| 0 <= x < t.irq_binding_count implies (
        #[trigger] t.irq_bindings@[x]).intid != intid by {
            let o = if x == i {
                task.irq_binding_count - 1
            } else {
                x
            };
            assert(t.irq_bindings@[x] == task.irq_bindings@[o]);
            assert(o != i);
        }
        lemma_binding(t, intid, 0);
        assert forall|x: int, y: int| 0 <= x < y < t.irq_binding_count implies (
        #[trigger] t.irq_bindings@[x]).intid != (#[trigger] t.irq_bindings@[y]).intid by {
            let ox = if x == i {
                task.irq_binding_count - 1
            } else {
                x
            };
            let oy = if y == i {
                task.irq_binding_count - 1
            } else {
                y
            };
            assert(t.irq_bindings@[x] == task.irq_bindings@[ox]);
            assert(t.irq_bindings@[y] == task.irq_bindings@[oy]);
        }
    }
}

impl TaskResources {
    /// Every run of user pages (address, page count) that the task's end unmaps, in order.
    pub open spec fn user_runs(self) -> Seq<(u64, u64)> {
        Seq::new(self.owned_count as nat, |i: int| (self.owned@[i].va, self.owned@[i].pages))
            + seq![
            ((abi::USER_STACK_TOP - 16 * 4096) as u64, 16u64),
            (abi::USER_BOOT_INFO_VA, 1u64),
            (abi::USER_HEAP_BASE, 1024u64),
        ] + Seq::new(self.mmio_count as nat, |i: int| (self.mmio@[i].va, self.mmio@[i].pages))
            + Seq::new(self.dma_count as nat, |i: int| (self.dma@[i].va, self.dma@[i].pages))
    }

    /// Every run of physical pages (address, page count) that the task's end gives back, in
    /// order. Device ranges are not memory and stay.
    pub open spec fn memory_runs(self) -> Seq<(u64, u64)> {
        Seq::new(self.owned_count as nat, |i: int| (self.owned@[i].pa, self.owned@[i].pages))
            + seq![(self.stack_pa, 16u64), (self.boot_info_pa, 1u64), (self.heap_pa, 1024u64)]
            + Seq::new(self.dma_count as nat, |i: int| (self.dma@[i].pa, self.dma@[i].pages))
    }
}

impl MachineView {
    /// The first `k` runs of user pages are unmapped.
    pub open spec fn unmap_runs(self, root: u64, runs: Seq<(u64, u64)>, k: int) -> MachineView
        decreases k,
    {
        if k <= 0 {
            self
        } else {
            self.unmap_runs(root, runs, k - 1).unmap_run(
                root,
                runs[k - 1].0 as int,
                runs[k - 1].1 as int,
            ).0
        }
    }

    /// Interrupts, scheduling, communication objects and threads of the task are gone.
    pub open spec fn task_stopped(self) -> (MachineView, Option<Fault>) {
        let owner = self.k.task.owner();
        let quiet = self.with_task(
            TaskResources { irq_binding_count: 0, ..self.k.task },
        ).with_ops(
            self.k.task.disable_bound(self.k.gic, self.k.task.irq_binding_count as int),
        ).sched_cleanup();
        quiet.with_ipc(quiet.k.ipc.without_owner(owner)).cleanup_threads(self.k.active_table)
    }

    /// The end of the task: everything it used is taken back. The number of frame pages that
    /// came back, or none without an active task.
    pub open spec fn task_exit(self) -> (MachineView, Result<Option<u64>, Fault>) {
        let owner = self.k.task.owner();
        let root = self.k.active_table;
        if !self.k.task.active {
            (self, Ok(None))
        } else {
            let (s, lost) = self.task_stopped();
            if lost is Some {
                (s, Err(lost->0))
            } else {
                let unmapped = s.vspace_cleanup(owner);
                let task = unmapped.k.task;
                let runs = task.user_runs();
                let t = unmapped.unmap_runs(root, runs, runs.len() as int).op(HwOp::FlushTlb);
                let (u, frames) = t.frame_cleanup(owner);
                let before = t.k.mem.total(t.k.mem.count as int);
                let after = u.k.mem.total(u.k.mem.count as int);
                if frames is Err {
                    (u, Err(frames->Err_0))
                } else {
                    let (v, lost2) = u.released(task.memory_runs());
                    if lost2 is Some {
                        (v, Err(lost2->0))
                    } else {
                        (
                            v.with_task(
                                TaskResources {
                                    active: false,
                                    mmio_grant_count: 0,
                                    irq_grant_count: 0,
                                    ..task
                                },
                            ),
                            Ok(
                                Some(
                                    (if after > before {
                                        after - before
                                    } else {
                                        0
                                    }) as u64,
                                ),
                            ),
                        )
                    }
                }
            }
        }
    }
}

fn user_runs(task: &TaskResources) -> (runs: Vec<(u64, u64)>)
    requires
        task.wf(),
    ensures
        runs@ == task.user_runs(),
        forall|i: int|
            0 <= i < runs@.len() ==> (#[trigger] runs@[i]).0 + runs@[i].1 * 4096 <= u64::MAX,
{
    let mut runs: Vec<(u64, u64)> = Vec::new();
    let mut i: usize = 0;
    while i < task.owned_count
        invariant
            task.wf(),
            i <= task.owned_count,
            runs@ == Seq::new(i as nat, |i: int| (task.owned@[i].va, task.owned@[i].pages)),
            forall|i: int|
                0 <= i < runs@.len() ==> (#[trigger] runs@[i]).0 + runs@[i].1 * 4096 <= u64::MAX,
        decreases task.owned_count - i,
    {
        assert(task.owned@[i as int].wf());
        runs.push((task.owned[i].va, task.owned[i].pages));
        i = i + 1;
        assert(runs@ =~= Seq::new(i as nat, |i: int| (task.owned@[i].va, task.owned@[i].pages)));
    }
    runs.push((abi::USER_STACK_TOP - abi::USER_STACK_PAGES * 4096, abi::USER_STACK_PAGES));
    runs.push((abi::USER_BOOT_INFO_VA, 1));
    runs.push((abi::USER_HEAP_BASE, abi::USER_HEAP_SIZE / 4096));
    let ghost fixed = runs@;
    i = 0;
    while i < task.mmio_count
        invariant
            task.wf(),
            i <= task.mmio_count,
            runs@ == fixed + Seq::new(i as nat, |i: int| (task.mmio@[i].va, task.mmio@[i].pages)),
            forall|i: int|
                0 <= i < runs@.len() ==> (#[trigger] runs@[i]).0 + runs@[i].1 * 4096 <= u64::MAX,
        decreases task.mmio_count - i,
    {
        assert(task.mmio@[i as int].wf());
        runs.push((task.mmio[i].va, task.mmio[i].pages));
        i = i + 1;
        assert(runs@ =~= fixed + Seq::new(
            i as nat,
            |i: int| (task.mmio@[i].va, task.mmio@[i].pages),
        ));
    }
    let ghost devices = runs@;
    i = 0;
    while i < task.dma_count
        invariant
            task.wf(),
            i <= task.dma_count,
            runs@ == devices + Seq::new(i as nat, |i: int| (task.dma@[i].va, task.dma@[i].pages)),
            forall|i: int|
                0 <= i < runs@.len() ==> (#[trigger] runs@[i]).0 + runs@[i].1 * 4096 <= u64::MAX,
        decreases task.dma_count - i,
    {
        assert(task.dma@[i as int].wf());
        runs.push((task.dma[i].va, task.dma[i].pages));
        i = i + 1;
        assert(runs@ =~= devices + Seq::new(
            i as nat,
            |i: int| (task.dma@[i].va, task.dma@[i].pages),
        ));
    }
    assert(runs@ =~= task.user_runs());
    runs
}

fn memory_runs(task: &TaskResources) -> (runs: Vec<(u64, u64)>)
    requires
        task.wf(),
    ensures
        runs@ == task.memory_runs(),
        forall|i: int|
            0 <= i < runs@.len() ==> PhysicalMemory::returnable(
                (#[trigger] runs@[i]).0,
                runs@[i].1,
            ),
{
    let mut runs: Vec<(u64, u64)> = Vec::new();
    let mut i: usize = 0;
    while i < task.owned_count
        invariant
            task.wf(),
            i <= task.owned_count,
            runs@ == Seq::new(i as nat, |i: int| (task.owned@[i].pa, task.owned@[i].pages)),
            forall|i: int|
                0 <= i < runs@.len() ==> PhysicalMemory::returnable(
                    (#[trigger] runs@[i]).0,
                    runs@[i].1,
                ),
        decreases task.owned_count - i,
    {
        assert(task.owned@[i as int].wf());
        runs.push((task.owned[i].pa, task.owned[i].pages));
        i = i + 1;
        assert(runs@ =~= Seq::new(i as nat, |i: int| (task.owned@[i].pa, task.owned@[i].pages)));
    }
    runs.push((task.stack_pa, abi::USER_STACK_PAGES));
    runs.push((task.boot_info_pa, 1));
    runs.push((task.heap_pa, abi::USER_HEAP_SIZE / 4096));
    let ghost fixed = runs@;
    i = 0;
    while i < task.dma_count
        invariant
            task.wf(),
            i <= task.dma_count,
            runs@ == fixed + Seq::new(i as nat, |i: int| (task.dma@[i].pa, task.dma@[i].pages)),
            forall|i: int|
                0 <= i < runs@.len() ==> PhysicalMemory::returnable(
                    (#[trigger] runs@[i]).0,
                    runs@[i].1,
                ),
        decreases task.dma_count - i,
    {
        assert(task.dma@[i as int].wf());
        runs.push((task.dma[i].pa, task.dma[i].pages));
        i = i + 1;
        assert(runs@ =~= fixed + Seq::new(
            i as nat,
            |i: int| (task.dma@[i].pa, task.dma@[i].pages),
        ));
    }
    assert(runs@ =~= task.memory_runs());
    runs
}

pub(crate) fn unmap_runs(m: &mut Machine, root: u64, runs: &Vec<(u64, u64)>)
    requires
        old(m)@.wf(),
        forall|i: int|
            0 <= i < runs@.len() ==> (#[trigger] runs@[i]).0 + runs@[i].1 * 4096 <= 0x1_0000_0000_0000_0000,
    ensures
        final(m)@ == old(m)@.unmap_runs(root, runs@, runs@.len() as int),
        final(m)@.wf(),
        final(m)@.k == old(m)@.k,
{
    let mut i: usize = 0;
    while i < runs.len()
        invariant
            i <= runs@.len(),
            m@.wf(),
            m@.k == old(m)@.k,
            m@ == old(m)@.unmap_runs(root, runs@, i as int),
            forall|i: int|
                0 <= i < runs@.len() ==> (#[trigger] runs@[i]).0 + runs@[i].1 * 4096 <= 0x1_0000_0000_0000_0000,
        decreases runs@.len() - i,
    {
        let run: (u64, u64) = runs[i];
        let ghost before = m@;
        assert(runs@[i as int].0 + runs@[i as int].1 * 4096 <= 0x1_0000_0000_0000_0000);
        mmu::unmap(m, root, run.0, run.1);
        proof {
            vspace::lemma_unmap_run_frame(before, root, run.0 as int, run.1 as int);
        }
        i = i + 1;
    }
}

fn stop_task(m: &mut Machine) -> (r: Result<(), Fault>)
    requires
        old(m)@.wf(),
    ensures
        final(m)@ == old(m)@.task_stopped().0,
        r == match old(m)@.task_stopped().1 {
            None => Ok::<(), Fault>(()),
            Some(fault) => Err::<(), Fault>(fault),
        },
        final(m)@.wf(),
{
    let root: u64 = mmu::active_table(m);
    let owner: u32 = current_owner(&m.k.task);
    cleanup_irqs(&mut m.k.task, &m.k.gic, &mut m.ops);
    priority::cleanup_owner(m);
    ipc::cleanup_owner(&mut m.k.ipc, owner);
    thread::cleanup_all(m, root)
}

/// Takes everything back that the task used. The other processors have stopped before. User
/// mappings go first; then, after stale translations were dropped, the memory is given back.
pub fn exit_current(m: &mut Machine) -> (r: Result<Option<u64>, Fault>)
    requires
        old(m)@.wf(),
    ensures
        (final(m)@, r) == old(m)@.task_exit(),
        final(m)@.wf(),
{
    if !m.k.task.active {
        return Ok(None);
    }
    let root: u64 = mmu::active_table(m);
    let owner: u32 = current_owner(&m.k.task);
    if let Err(fault) = stop_task(m) {
        return Err(fault);
    }
    vspace::cleanup_owner(m, owner);
    let runs: Vec<(u64, u64)> = user_runs(&m.k.task);
    unmap_runs(m, root, &runs);
    mmu::flush_el1_tlb(m);
    let before: u64 = physical::free_pages_total(&m.k.mem);
    if let Err(fault) = frame::cleanup_owner(m, owner) {
        return Err(fault);
    }
    let after: u64 = physical::free_pages_total(&m.k.mem);
    let reclaimed: u64 = after.saturating_sub(before);
    let memory: Vec<(u64, u64)> = memory_runs(&m.k.task);
    if physical::free_runs(&mut m.k.mem, &memory).is_err() {
        return Err(Fault::RangeTableFull);
    }
    m.k.task.active = false;
    m.k.task.mmio_grant_count = 0;
    m.k.task.irq_grant_count = 0;
    Ok(Some(reclaimed))
}

} // verus!
