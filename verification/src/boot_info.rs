//! What the boot shim collects before the kernel takes over.
use crate::util::ArrayUpdate;
use vstd::prelude::*;

verus! {

pub const MAX_BOOT_RANGES: usize = 64;

/// Number that firmware gives to free memory.
pub const CONVENTIONAL_MEMORY: u32 = 7;

/// A range of free physical memory.
#[derive(Clone, Copy, Debug, PartialEq, Eq, Structural)]
pub struct BootRange {
    pub base: u64,
    pub pages: u64,
}

impl Default for BootRange {
    fn default() -> (r: Self)
        ensures
            r == (BootRange { base: 0, pages: 0 }),
    {
        BootRange { base: 0, pages: 0 }
    }
}

/// The memory that the display shows.
#[derive(Clone, Copy, Debug, PartialEq, Eq, Structural)]
pub struct Framebuffer {
    pub base: u64,
    pub size: usize,
}

impl Default for Framebuffer {
    fn default() -> (r: Self)
        ensures
            r == (Framebuffer { base: 0, size: 0 }),
    {
        Framebuffer { base: 0, size: 0 }
    }
}

/// A summary of the firmware's memory map.
#[derive(Clone, Copy, Debug, PartialEq, Eq, Structural)]
pub struct MemInfo {
    pub free_pages: u64,
    pub desc_count: usize,
    pub desc_size: usize,
}

impl Default for MemInfo {
    fn default() -> (r: Self)
        ensures
            r == (MemInfo { free_pages: 0, desc_count: 0, desc_size: 0 }),
    {
        MemInfo { free_pages: 0, desc_count: 0, desc_size: 0 }
    }
}

/// The system registers as firmware left them.
#[derive(Clone, Copy, Debug, PartialEq, Eq, Structural)]
pub struct El2Regs {
    pub current_el: u64,
    pub sctlr: u64,
    pub tcr: u64,
    pub mair: u64,
    pub ttbr0: u64,
    pub vbar: u64,
    pub hcr: u64,
}

impl Default for El2Regs {
    fn default() -> (r: Self)
        ensures
            r == (El2Regs {
                current_el: 0,
                sctlr: 0,
                tcr: 0,
                mair: 0,
                ttbr0: 0,
                vbar: 0,
                hcr: 0,
            }),
    {
        El2Regs { current_el: 0, sctlr: 0, tcr: 0, mair: 0, ttbr0: 0, vbar: 0, hcr: 0 }
    }
}

/// One entry of the firmware's memory map.
#[derive(Clone, Copy, Debug, PartialEq, Eq, Structural)]
pub struct MemoryEntry {
    pub kind: u32,
    pub phys_start: u64,
    pub page_count: u64,
}

#[derive(Clone, Copy)]
#[verifier::ext_equal]
pub struct BootInfo {
    pub fb: Framebuffer,
    pub mem: MemInfo,
    pub el2: El2Regs,
    pub rsdp: u64,
    pub dtb: u64,
    pub range_count: usize,
    pub ranges: [BootRange; 64],
}

impl Default for BootInfo {
    fn default() -> (r: Self)
        ensures
            r == BootInfo::none(),
            r.wf(),
    {
        BootInfo {
            fb: Framebuffer { base: 0, size: 0 },
            mem: MemInfo { free_pages: 0, desc_count: 0, desc_size: 0 },
            el2: El2Regs {
                current_el: 0,
                sctlr: 0,
                tcr: 0,
                mair: 0,
                ttbr0: 0,
                vbar: 0,
                hcr: 0,
            },
            rsdp: 0,
            dtb: 0,
            range_count: 0,
            ranges: [BootRange { base: 0, pages: 0 };64],
        }
    }
}

/// Pages of free memory among the first `k` entries, as far as the number can count.
pub open spec fn free_pages(entries: Seq<MemoryEntry>, k: int) -> int
    decreases k,
{
    if k <= 0 {
        0
    } else if entries[k - 1].kind == CONVENTIONAL_MEMORY {
        let sum = free_pages(entries, k - 1) + entries[k - 1].page_count;
        if sum > u64::MAX {
            u64::MAX as int
        } else {
            sum
        }
    } else {
        free_pages(entries, k - 1)
    }
}

impl BootInfo {
    pub open spec fn none() -> BootInfo {
        BootInfo {
            fb: Framebuffer { base: 0, size: 0 },
            mem: MemInfo { free_pages: 0, desc_count: 0, desc_size: 0 },
            el2: El2Regs {
                current_el: 0,
                sctlr: 0,
                tcr: 0,
                mair: 0,
                ttbr0: 0,
                vbar: 0,
                hcr: 0,
            },
            rsdp: 0,
            dtb: 0,
            range_count: 0,
            ranges: crate::util::filled(BootRange { base: 0, pages: 0 }),
        }
    }

    pub open spec fn wf(self) -> bool {
        self.range_count <= MAX_BOOT_RANGES
    }

    /// The free ranges of the first `k` entries are listed, as many as there is room for.
    pub open spec fn listing(self, entries: Seq<MemoryEntry>, k: int) -> BootInfo
        decreases k,
    {
        if k <= 0 {
            BootInfo { range_count: 0, ..self }
        } else {
            let before = self.listing(entries, k - 1);
            let entry = entries[k - 1];
            if entry.kind == CONVENTIONAL_MEMORY && before.range_count < MAX_BOOT_RANGES {
                BootInfo {
                    ranges: before.ranges.upd(
                        before.range_count as int,
                        BootRange { base: entry.phys_start, pages: entry.page_count },
                    ),
                    range_count: (before.range_count + 1) as usize,
                    ..before
                }
            } else {
                before
            }
        }
    }

    /// Keeps the registers that firmware left.
    pub fn read_el2(&mut self, regs: El2Regs)
        ensures
            *final(self) == (BootInfo { el2: regs, ..*old(self) }),
    {
        self.el2 = regs;
    }

    /// Lists the free ranges of the memory map and counts their pages. Free memory that has no
    /// place in the list is counted all the same.
    pub fn fill_memmap(&mut self, entries: &[MemoryEntry], desc_size: usize)
        ensures
            *final(self) == (BootInfo {
                mem: MemInfo {
                    free_pages: free_pages(entries@, entries@.len() as int) as u64,
                    desc_count: entries@.len() as usize,
                    desc_size,
                },
                ..old(self).listing(entries@, entries@.len() as int)
            }),
            final(self).wf(),
    {
        let mut free: u64 = 0;
        self.range_count = 0;
        let len: usize = entries.len();
        let mut k: usize = 0;
        while k < len
            invariant
                len == entries@.len(),
                k <= len,
                self.range_count <= MAX_BOOT_RANGES,
                free == free_pages(entries@, k as int),
                *self == old(self).listing(entries@, k as int),
            decreases len - k,
        {
            let entry: MemoryEntry = entries[k];
            if entry.kind == CONVENTIONAL_MEMORY {
                free = free.saturating_add(entry.page_count);
                if self.range_count < MAX_BOOT_RANGES {
                    let place: usize = self.range_count;
                    self.ranges[place] =
                        BootRange { base: entry.phys_start, pages: entry.page_count };
                    self.range_count = place + 1;
                }
            }
            k = k + 1;
        }
        self.mem = MemInfo { free_pages: free, desc_count: len, desc_size };
    }

    /// The first range that still has a page, at place `from` or later.
    pub open spec fn first_with_page(self, from: int) -> Option<int>
        decreases self.range_count - from,
    {
        if from < 0 || from >= self.range_count {
            None
        } else if self.ranges@[from].pages != 0 {
            Some(from)
        } else {
            self.first_with_page(from + 1)
        }
    }

    /// The state without the first page of range `i`.
    pub open spec fn without_page(self, i: int) -> BootInfo {
        let range = self.ranges@[i];
        BootInfo {
            ranges: self.ranges.upd(
                i,
                BootRange {
                    base: (range.base + 4096) as u64,
                    pages: (range.pages - 1) as u64,
                },
            ),
            mem: MemInfo {
                free_pages: if self.mem.free_pages == 0 {
                    0
                } else {
                    (self.mem.free_pages - 1) as u64
                },
                ..self.mem
            },
            ..self
        }
    }

    /// A range whose pages all have addresses.
    pub open spec fn in_bounds(self) -> bool {
        forall|i: int|
            0 <= i < self.range_count ==> (#[trigger] self.ranges@[i]).base
                + self.ranges@[i].pages * 4096 <= u64::MAX
    }

    /// Takes the next page before there is an allocator; none when the memory is used up.
    pub fn boot_alloc_page(&mut self) -> (r: Option<u64>)
        requires
            old(self).wf(),
            old(self).in_bounds(),
        ensures
            match old(self).first_with_page(0) {
                Some(i) => r == Some(old(self).ranges@[i].base) && *final(self) == old(
                    self,
                ).without_page(i),
                None => r is None && *final(self) == *old(self),
            },
            final(self).wf(),
            final(self).in_bounds(),
    {
        let mut i: usize = 0;
        while i < self.range_count
            invariant
                *self == *old(self),
                self.wf(),
                self.in_bounds(),
                i <= self.range_count,
                self.first_with_page(0) == self.first_with_page(i as int),
            decreases self.range_count - i,
        {
            if self.ranges[i].pages != 0 {
                let range: BootRange = self.ranges[i];
                assert(self.ranges@[i as int].base + self.ranges@[i as int].pages * 4096
                    <= u64::MAX);
                self.ranges[i] = BootRange { base: range.base + 4096, pages: range.pages - 1 };
                if self.mem.free_pages != 0 {
                    self.mem.free_pages = self.mem.free_pages - 1;
                }
                return Some(range.base);
            }
            i = i + 1;
        }
        None
    }
}


/// What a table of the firmware describes.
#[derive(Clone, Copy, Debug, PartialEq, Eq, Structural)]
pub enum TableKind {
    Acpi2,
    Fdt,
    Other,
}

/// One table of the firmware.
#[derive(Clone, Copy, Debug, PartialEq, Eq, Structural)]
pub struct ConfigEntry {
    pub kind: TableKind,
    pub address: u64,
}

/// The address of the last table of a kind among the first `k`; zero if there is none.
pub open spec fn last_table(entries: Seq<ConfigEntry>, kind: TableKind, k: int) -> u64
    decreases k,
{
    if k <= 0 {
        0
    } else if entries[k - 1].kind == kind {
        entries[k - 1].address
    } else {
        last_table(entries, kind, k - 1)
    }
}

impl BootInfo {
    /// Takes the addresses of the ACPI tables and of the device tree over from the firmware.
    pub fn take_tables(&mut self, entries: &[ConfigEntry])
        ensures
            *final(self) == (BootInfo {
                rsdp: last_table(entries@, TableKind::Acpi2, entries@.len() as int),
                dtb: last_table(entries@, TableKind::Fdt, entries@.len() as int),
                ..*old(self)
            }),
    {
        let mut rsdp: u64 = 0;
        let mut dtb: u64 = 0;
        let mut k: usize = 0;
        while k < entries.len()
            invariant
                k <= entries@.len(),
                rsdp == last_table(entries@, TableKind::Acpi2, k as int),
                dtb == last_table(entries@, TableKind::Fdt, k as int),
            decreases entries@.len() - k,
        {
            match entries[k].kind {
                TableKind::Acpi2 => {
                    rsdp = entries[k].address;
                },
                TableKind::Fdt => {
                    dtb = entries[k].address;
                },
                TableKind::Other => {},
            }
            k = k + 1;
        }
        self.rsdp = rsdp;
        self.dtb = dtb;
    }

    /// Takes the first page of the first range for the code that enters the kernel, if there is
    /// one.
    pub fn take_entry_page(&mut self) -> (r: Option<u64>)
        requires
            old(self).wf(),
            old(self).in_bounds(),
        ensures
            if old(self).range_count > 0 && old(self).ranges@[0].pages != 0 {
                r == Some(old(self).ranges@[0].base) && *final(self) == old(self).without_page(0)
            } else {
                r is None && *final(self) == *old(self)
            },
            final(self).wf(),
            final(self).in_bounds(),
    {
        if self.range_count == 0 || self.ranges[0].pages == 0 {
            return None;
        }
        let range: BootRange = self.ranges[0];
        assert(self.ranges@[0].base + self.ranges@[0].pages * 4096 <= u64::MAX);
        self.ranges[0] = BootRange { base: range.base + 4096, pages: range.pages - 1 };
        if self.mem.free_pages != 0 {
            self.mem.free_pages = self.mem.free_pages - 1;
        }
        Some(range.base)
    }
}

} // verus!
