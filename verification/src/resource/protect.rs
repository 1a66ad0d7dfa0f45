//! Which physical device ranges exist, and which of them EL0 can never have.
//!
//! Every device window of the device tree is registered here, rounded out to whole pages.
//! Ranges that the kernel keeps for itself are denied, and a denial always wins. Who may map a
//! registered window is recorded with the task, not here.
use crate::util::ArrayUpdate;
use vstd::prelude::*;

verus! {

pub const MAX_REGIONS: usize = 128;

pub const MAX_DENIED_REGIONS: usize = 8;

/// A physical address range of a device.
#[derive(Clone, Copy, Debug, PartialEq, Eq, Structural)]
pub struct MmioRegion {
    pub base: u64,
    pub size: u64,
}

impl MmioRegion {
    /// The range `[base, end)` lies inside the region, which itself ends below 2^64.
    pub open spec fn holds(self, base: int, end: int) -> bool {
        self.base + self.size <= u64::MAX && self.base <= base && end <= self.base + self.size
    }

    /// The range `[base, end)` has an address in common with the region.
    pub open spec fn meets(self, base: int, end: int) -> bool {
        let region_end = if self.base + self.size > u64::MAX {
            u64::MAX as int
        } else {
            self.base + self.size
        };
        base < region_end && end > self.base
    }
}

#[derive(Clone, Copy)]
#[verifier::ext_equal]
pub struct ProtectTable {
    pub regions: [MmioRegion; 128],
    pub count: usize,
    pub denied: [MmioRegion; 8],
    pub denied_count: usize,
}

impl ProtectTable {
    pub open spec fn wf(self) -> bool {
        self.count <= 128 && self.denied_count <= 8
    }

    /// A range that EL0 may be given: inside one registered window, clear of every denial.
    pub open spec fn allows(self, base: u64, size: u64) -> bool {
        &&& size != 0
        &&& base + size <= u64::MAX
        &&& forall|i: int|
            0 <= i < self.denied_count ==> !(#[trigger] self.denied@[i]).meets(
                base as int,
                base + size,
            )
        &&& exists|i: int|
            0 <= i < self.count && (#[trigger] self.regions@[i]).holds(base as int, base + size)
    }

    /// The table with one more window, if it is sound and there is room.
    pub open spec fn registered(self, base: u64, size: u64) -> ProtectTable {
        if size == 0 || base + size + 4095 > u64::MAX || self.count >= 128 {
            self
        } else {
            ProtectTable {
                regions: self.regions.upd(
                    self.count as int,
                    ProtectTable::page_window(base, size),
                ),
                count: (self.count + 1) as usize,
                ..self
            }
        }
    }

    /// The table with one more denied range, if there is room.
    pub open spec fn denying(self, base: u64, size: u64) -> ProtectTable {
        if self.denied_count >= 8 {
            self
        } else {
            ProtectTable {
                denied: self.denied.upd(self.denied_count as int, MmioRegion { base, size }),
                denied_count: (self.denied_count + 1) as usize,
                ..self
            }
        }
    }

    /// The window of a device, rounded out to whole pages.
    pub open spec fn page_window(base: u64, size: u64) -> MmioRegion {
        let first = base - base % 4096;
        let end = crate::util::round_up(base + size, 4096);
        MmioRegion { base: first as u64, size: (end - first) as u64 }
    }
}

pub fn empty_protect_table() -> (r: ProtectTable)
    ensures
        r.wf(),
        r.count == 0,
        r.denied_count == 0,
{
    let none = MmioRegion { base: 0, size: 0 };
    ProtectTable { regions: [none; 128], count: 0, denied: [none; 8], denied_count: 0 }
}

/// Registers a device window. Empty ranges are ignored, as are those that do not end below the
/// last page of the address space and those beyond capacity.
pub fn register(table: &mut ProtectTable, base: u64, size: u64)
    requires
        old(table).wf(),
    ensures
        *final(table) == old(table).registered(base, size),
        final(table).wf(),
{
    if size == 0 {
        return;
    }
    let end: u64 = match base.checked_add(size) {
        Some(end) => end,
        None => {
            return;
        },
    };
    let page_base: u64 = base - base % 4096;
    let padded: u64 = match end.checked_add(4095) {
        Some(padded) => padded,
        None => {
            return;
        },
    };
    let page_end: u64 = (padded / 4096) * 4096;
    if table.count < MAX_REGIONS {
        let place: usize = table.count;
        proof {
            crate::util::lemma_round_up(end as int, 4096);
        }
        table.regions[place] = MmioRegion { base: page_base, size: page_end - page_base };
        table.count = place + 1;
    }
}

/// Keeps a range for the kernel: `contains_range` refuses it whatever is registered.
pub fn deny(table: &mut ProtectTable, base: u64, size: u64)
    requires
        old(table).wf(),
    ensures
        *final(table) == old(table).denying(base, size),
        final(table).wf(),
{
    if table.denied_count < MAX_DENIED_REGIONS {
        let place: usize = table.denied_count;
        table.denied[place] = MmioRegion { base, size };
        table.denied_count = place + 1;
    }
}

/// Whether `[base, base + size)` lies inside one registered window and meets no denied range.
pub fn contains_range(table: &ProtectTable, base: u64, size: u64) -> (r: bool)
    requires
        table.wf(),
    ensures
        r == table.allows(base, size),
{
    if size == 0 {
        return false;
    }
    let end: u64 = match base.checked_add(size) {
        Some(end) => end,
        None => {
            return false;
        },
    };
    let mut i: usize = 0;
    while i < table.denied_count
        invariant
            table.wf(),
            i <= table.denied_count,
            end == base + size,
            forall|k: int|
                0 <= k < i ==> !(#[trigger] table.denied@[k]).meets(base as int, base + size),
        decreases table.denied_count - i,
    {
        let region: MmioRegion = table.denied[i];
        let region_end: u64 = region.base.saturating_add(region.size);
        if base < region_end && end > region.base {
            assert(table.denied@[i as int].meets(base as int, base + size));
            return false;
        }
        i = i + 1;
    }
    let mut j: usize = 0;
    while j < table.count
        invariant
            table.wf(),
            size != 0,
            j <= table.count,
            end == base + size,
            forall|k: int|
                0 <= k < table.denied_count ==> !(#[trigger] table.denied@[k]).meets(
                    base as int,
                    base + size,
                ),
            forall|k: int|
                0 <= k < j ==> !(#[trigger] table.regions@[k]).holds(base as int, base + size),
        decreases table.count - j,
    {
        let region: MmioRegion = table.regions[j];
        if let Some(region_end) = region.base.checked_add(region.size) {
            if base >= region.base && end <= region_end {
                assert(table.regions@[j as int].holds(base as int, base + size));
                return true;
            }
        }
        j = j + 1;
    }
    false
}

/// A denied range stays refused, whatever windows are registered before or after.
pub proof fn law_denial_wins(table: ProtectTable, base: u64, size: u64, i: int)
    requires
        table.wf(),
        0 <= i < table.denied_count,
        table.denied@[i].meets(base as int, base + size),
    ensures
        !table.allows(base, size),
{
    if base + size <= u64::MAX {
        assert(table.denied@[i].meets(base as int, base + size));
    }
}

/// Registering more windows never takes an allowed range away.
pub proof fn law_register_is_monotone(table: ProtectTable, window: MmioRegion, base: u64, size: u64)
    requires
        table.wf(),
        table.count < 128,
        table.allows(base, size),
    ensures
        (ProtectTable {
            regions: table.regions.upd(table.count as int, window),
            count: (table.count + 1) as usize,
            ..table
        }).allows(base, size),
{
    let i = choose|i: int|
        0 <= i < table.count && (#[trigger] table.regions@[i]).holds(base as int, base + size);
    let more = ProtectTable {
        regions: table.regions.upd(table.count as int, window),
        count: (table.count + 1) as usize,
        ..table
    };
    assert(more.regions@[i].holds(base as int, base + size));
}

} // verus!
