//! Which physical ranges are device windows, and who owns them.
use crate::util::ArrayUpdate;
use vstd::prelude::*;

verus! {

pub const MAX_REGIONS: usize = 128;

/// A device window and its owner; zero stands for nobody.
#[derive(Clone, Copy, Debug, PartialEq, Eq, Structural)]
pub struct MmioRegion {
    pub base: u64,
    pub size: u64,
    pub owner: u32,
}

impl MmioRegion {
    pub open spec fn holds(self, base: int, end: int) -> bool {
        self.base + self.size <= u64::MAX && self.base <= base && end <= self.base + self.size
    }

    pub open spec fn covers(self, address: u64) -> bool {
        self.base <= address < self.base + self.size
    }
}

#[derive(Clone, Copy)]
#[verifier::ext_equal]
pub struct Regions {
    pub table: [MmioRegion; 128],
    pub count: usize,
}

impl Regions {
    pub open spec fn wf(self) -> bool {
        self.count <= MAX_REGIONS
    }

    /// One more window that nobody owns, if there is room.
    pub open spec fn registered(self, base: u64, size: u64) -> Regions {
        if self.count >= MAX_REGIONS {
            self
        } else {
            Regions {
                table: self.table.upd(self.count as int, MmioRegion { base, size, owner: 0 }),
                count: (self.count + 1) as usize,
            }
        }
    }

    /// The owner of the first window from `from` on that covers an address.
    pub open spec fn owner_of(self, address: u64, from: int) -> Option<u32>
        decreases self.count - from,
    {
        if from < 0 || from >= self.count {
            None
        } else if self.table@[from].covers(address) {
            Some(self.table@[from].owner)
        } else {
            self.owner_of(address, from + 1)
        }
    }

    /// A range that lies inside one window.
    pub open spec fn contains(self, base: u64, size: u64) -> bool {
        &&& size != 0
        &&& base + size <= u64::MAX
        &&& exists|i: int|
            0 <= i < self.count && (#[trigger] self.table@[i]).holds(base as int, base + size)
    }
}

pub fn no_regions() -> (r: Regions)
    ensures
        r.wf(),
        r.count == 0,
{
    Regions { table: [MmioRegion { base: 0, size: 0, owner: 0 };128], count: 0 }
}

/// Registers a window as the device tree gives it; one beyond capacity is dropped.
pub fn register(regions: &mut Regions, base: u64, size: u64)
    requires
        old(regions).wf(),
    ensures
        *final(regions) == old(regions).registered(base, size),
        final(regions).wf(),
{
    if regions.count < MAX_REGIONS {
        let place: usize = regions.count;
        regions.table[place] = MmioRegion { base, size, owner: 0 };
        regions.count = place + 1;
    }
}

/// The owner of the window that covers an address; none if no window does.
pub fn lookup(regions: &Regions, paddr: u64) -> (r: Option<u32>)
    requires
        regions.wf(),
    ensures
        r == regions.owner_of(paddr, 0),
{
    let mut i: usize = 0;
    while i < regions.count
        invariant
            regions.wf(),
            i <= regions.count,
            regions.owner_of(paddr, 0) == regions.owner_of(paddr, i as int),
        decreases regions.count - i,
    {
        let region: MmioRegion = regions.table[i];
        if paddr >= region.base && paddr - region.base < region.size {
            return Some(region.owner);
        }
        i = i + 1;
    }
    None
}

/// Whether `[base, base + size)` lies inside one window.
pub fn contains_range(regions: &Regions, base: u64, size: u64) -> (r: bool)
    requires
        regions.wf(),
    ensures
        r == regions.contains(base, size),
{
    if size == 0 {
        return false;
    }
    let end: u64 = match base.checked_add(size) {
        None => {
            return false;
        },
        Some(end) => end,
    };
    let mut i: usize = 0;
    while i < regions.count
        invariant
            regions.wf(),
            i <= regions.count,
            size != 0,
            end == base + size,
            forall|k: int|
                0 <= k < i ==> !(#[trigger] regions.table@[k]).holds(base as int, base + size),
        decreases regions.count - i,
    {
        let region: MmioRegion = regions.table[i];
        if let Some(region_end) = region.base.checked_add(region.size) {
            if base >= region.base && end <= region_end {
                assert(regions.table@[i as int].holds(base as int, base + size));
                return true;
            }
        }
        i = i + 1;
    }
    false
}

/// A window that was registered covers each of its addresses, so a look-up finds an owner.
pub proof fn law_registered_is_found(regions: Regions, base: u64, size: u64, address: u64)
    requires
        regions.wf(),
        regions.count < MAX_REGIONS,
        base <= address < base + size,
    ensures
        regions.registered(base, size).owner_of(address, 0) is Some,
{
    let more = regions.registered(base, size);
    assert(more.table@[regions.count as int].covers(address));
    lemma_owner_found(more, address, 0, regions.count as int);
}

proof fn lemma_owner_found(regions: Regions, address: u64, from: int, i: int)
    requires
        0 <= from <= i < regions.count,
        regions.table@[i].covers(address),
    ensures
        regions.owner_of(address, from) is Some,
    decreases i - from,
{
    if !regions.table@[from].covers(address) {
        lemma_owner_found(regions, address, from + 1, i);
    }
}

} // verus!
