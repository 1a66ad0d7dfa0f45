//! Address spaces, and the mappings of frames into them.
use crate::abi;
use crate::handle::{decode_handle, make_handle, next_generation};
use crate::hw::HwOp;
use crate::machine::{Entry, Fault, Kernel, Machine, MachineView};
use crate::memory::frame;
use crate::memory::mmu;
use crate::memory::mmu::MapError;
use crate::util::ArrayUpdate;
use vstd::prelude::*;

verus! {

pub const MAX_FRAME_MAPPINGS: usize = 128;

pub const MAX_VSPACES: usize = 8;

#[derive(Clone, Copy, Debug, PartialEq, Eq, Structural)]
pub struct VSpaceEntry {
    pub generation: u32,
    pub active: bool,
    pub root_pa: u64,
    pub asid: u16,
    pub creator_owner: u32,
    pub active_thread_count: u16,
    pub mapping_count: u16,
}

#[derive(Clone, Copy, Debug, PartialEq, Eq, Structural)]
pub struct MappingEntry {
    pub owner: u32,
    pub generation: u32,
    pub frame_handle: u64,
    pub frame_pa: u64,
    pub target_vspace: u64,
    pub target_root: u64,
    pub offset_pages: u64,
    pub pages: u64,
    pub va: u64,
    pub rights: u64,
}

#[derive(Clone, Copy)]
#[verifier::ext_equal]
pub struct VSpaces {
    pub spaces: [VSpaceEntry; 8],
    pub mappings: [MappingEntry; 128],
    /// The address space that each processor uses.
    pub current: [u64; 4],
    /// Device blocks that the kernel needs in every address space.
    pub device_blocks: [u64; 3],
    pub device_count: usize,
}

impl MappingEntry {
    pub open spec fn wf(self) -> bool {
        &&& crate::handle::generation_ok(self.generation)
        &&& self.va + self.pages * 4096 <= u64::MAX
        &&& self.frame_pa + (self.offset_pages + self.pages) * 4096 <= u64::MAX
    }
}

impl VSpaces {
    pub open spec fn wf(self) -> bool {
        &&& self.device_count <= 3
        &&& forall|i: int|
            0 <= i < 8 ==> crate::handle::generation_ok((#[trigger] self.spaces@[i]).generation)
        &&& forall|i: int| 0 <= i < 128 ==> (#[trigger] self.mappings@[i]).wf()
    }
}

impl VSpaceEntry {
    pub open spec fn empty(generation: u32) -> VSpaceEntry {
        VSpaceEntry {
            generation,
            active: false,
            root_pa: 0,
            asid: 0,
            creator_owner: 0,
            active_thread_count: 0,
            mapping_count: 0,
        }
    }
}

impl MappingEntry {
    pub open spec fn empty(generation: u32) -> MappingEntry {
        MappingEntry {
            owner: 0,
            generation,
            frame_handle: 0,
            frame_pa: 0,
            target_vspace: 0,
            target_root: 0,
            offset_pages: 0,
            pages: 0,
            va: 0,
            rights: 0,
        }
    }
}

impl VSpaces {
    pub open spec fn with_space(self, slot: int, entry: VSpaceEntry) -> VSpaces {
        VSpaces { spaces: self.spaces.upd(slot, entry), ..self }
    }

    pub open spec fn with_mapping(self, slot: int, entry: MappingEntry) -> VSpaces {
        VSpaces { mappings: self.mappings.upd(slot, entry), ..self }
    }

    /// The active address space that `handle` names.
    pub open spec fn find(self, handle: u64) -> Result<int, u64> {
        match crate::handle::decoded(handle, 8) {
            None => Err(abi::SYS_ERR_INVALID),
            Some(found) => {
                let entry = self.spaces@[found.0];
                if !entry.active || entry.generation != found.1 {
                    Err(abi::SYS_ERR_NOT_FOUND)
                } else {
                    Ok(found.0)
                }
            },
        }
    }

    /// The active address space that `handle` names, if `owner` created it.
    pub open spec fn find_for(self, owner: u32, handle: u64) -> Result<int, u64> {
        match self.find(handle) {
            Ok(slot) => if self.spaces@[slot].creator_owner != owner {
                Err(abi::SYS_ERR_DENIED)
            } else {
                Ok(slot)
            },
            Err(error) => Err(error),
        }
    }

    /// The address space after one more thread began to use it.
    pub open spec fn thread_added(self, slot: int) -> VSpaces {
        let entry = self.spaces@[slot];
        self.with_space(
            slot,
            VSpaceEntry { active_thread_count: (entry.active_thread_count + 1) as u16, ..entry },
        )
    }

    /// The table after a thread stopped using the address space that `handle` names.
    pub open spec fn thread_removed(self, handle: u64) -> VSpaces {
        match crate::handle::decoded(handle, 8) {
            Some(found) => {
                let entry = self.spaces@[found.0];
                if entry.generation == found.1 && entry.active_thread_count != 0 {
                    self.with_space(
                        found.0,
                        VSpaceEntry {
                            active_thread_count: (entry.active_thread_count - 1) as u16,
                            ..entry
                        },
                    )
                } else {
                    self
                }
            },
            None => self,
        }
    }

    pub open spec fn mapping_added(self, slot: int) -> VSpaces {
        let entry = self.spaces@[slot];
        self.with_space(
            slot,
            VSpaceEntry { mapping_count: (entry.mapping_count + 1) as u16, ..entry },
        )
    }

    pub open spec fn mapping_removed(self, handle: u64) -> VSpaces {
        match crate::handle::decoded(handle, 8) {
            Some(found) => {
                let entry = self.spaces@[found.0];
                if entry.generation == found.1 && entry.mapping_count != 0 {
                    self.with_space(
                        found.0,
                        VSpaceEntry { mapping_count: (entry.mapping_count - 1) as u16, ..entry },
                    )
                } else {
                    self
                }
            },
            None => self,
        }
    }

    /// The handle of the address space that processor `cpu` uses.
    pub open spec fn handle_on(self, cpu: usize) -> u64 {
        self.current@[if cpu < 4 {
            cpu as int
        } else {
            3
        }]
    }
}

pub fn empty_vspaces() -> (r: VSpaces)
    ensures
        r.wf(),
        r.device_count == 0,
        forall|i: int| 0 <= i < 8 ==> r.spaces@[i] == VSpaceEntry::empty(1),
        forall|i: int| 0 <= i < 128 ==> r.mappings@[i] == MappingEntry::empty(1),
        forall|i: int| 0 <= i < 4 ==> r.current@[i] == 0,
{
    let space = VSpaceEntry {
        generation: 1,
        active: false,
        root_pa: 0,
        asid: 0,
        creator_owner: 0,
        active_thread_count: 0,
        mapping_count: 0,
    };
    let mapping = MappingEntry {
        owner: 0,
        generation: 1,
        frame_handle: 0,
        frame_pa: 0,
        target_vspace: 0,
        target_root: 0,
        offset_pages: 0,
        pages: 0,
        va: 0,
        rights: 0,
    };
    VSpaces {
        spaces: [space; 8],
        mappings: [mapping; 128],
        current: [0u64; 4],
        device_blocks: [0u64; 3],
        device_count: 0,
    }
}

/// The handle of the address space that processor `cpu` uses.
pub fn current_handle(spaces: &VSpaces, cpu: usize) -> (r: u64)
    ensures
        r == spaces.handle_on(cpu),
{
    let place: usize = if cpu < abi::MAX_CPUS {
        cpu
    } else {
        abi::MAX_CPUS - 1
    };
    spaces.current[place]
}

fn find(spaces: &VSpaces, handle: u64) -> (r: Result<usize, u64>)
    ensures
        match r {
            Ok(slot) => slot < 8 && spaces.find(handle) == Ok::<int, u64>(slot as int),
            Err(error) => spaces.find(handle) == Err::<int, u64>(error),
        },
{
    match decode_handle(handle, MAX_VSPACES) {
        None => Err(abi::SYS_ERR_INVALID),
        Some(found) => {
            let entry: VSpaceEntry = spaces.spaces[found.0];
            if !entry.active || entry.generation != found.1 {
                return Err(abi::SYS_ERR_NOT_FOUND);
            }
            Ok(found.0)
        },
    }
}

/// The table root and identifier of an address space, for the owner that created it.
pub fn resolve_for_owner(spaces: &VSpaces, owner: u32, handle: u64) -> (r: Result<(u64, u16), u64>)
    ensures
        match (r, spaces.find_for(owner, handle)) {
            (Ok(found), Ok(slot)) => found == (
                spaces.spaces@[slot].root_pa,
                spaces.spaces@[slot].asid,
            ),
            (Err(error), Err(expected)) => error == expected,
            _ => false,
        },
{
    match find(spaces, handle) {
        Err(error) => Err(error),
        Ok(slot) => {
            let entry: VSpaceEntry = spaces.spaces[slot];
            if entry.creator_owner != owner {
                return Err(abi::SYS_ERR_DENIED);
            }
            Ok((entry.root_pa, entry.asid))
        },
    }
}

/// The owner on whose behalf threads of an address space run: the one that created it.
pub fn resource_owner(spaces: &VSpaces, owner: u32, handle: u64) -> (r: Result<u32, u64>)
    ensures
        match (r, spaces.find_for(owner, handle)) {
            (Ok(found), Ok(slot)) => found == spaces.spaces@[slot].creator_owner && found == owner,
            (Err(error), Err(expected)) => error == expected,
            _ => false,
        },
{
    match find(spaces, handle) {
        Err(error) => Err(error),
        Ok(slot) => {
            let entry: VSpaceEntry = spaces.spaces[slot];
            if entry.creator_owner != owner {
                return Err(abi::SYS_ERR_DENIED);
            }
            Ok(entry.creator_owner)
        },
    }
}

/// Counts one more thread in an active address space.
pub fn add_thread(spaces: &mut VSpaces, handle: u64) -> (r: Result<(), u64>)
    requires
        old(spaces).wf(),
    ensures
        match old(spaces).find(handle) {
            Err(error) => r == Err::<(), u64>(error) && *final(spaces) == *old(spaces),
            Ok(slot) => if old(spaces).spaces@[slot].active_thread_count == u16::MAX {
                r == Err::<(), u64>(abi::SYS_ERR_BUSY) && *final(spaces) == *old(spaces)
            } else {
                r is Ok && *final(spaces) == old(spaces).thread_added(slot)
            },
        },
        final(spaces).wf(),
{
    match find(spaces, handle) {
        Err(error) => Err(error),
        Ok(slot) => {
            assert(crate::handle::generation_ok(spaces.spaces@[slot as int].generation));
            match spaces.spaces[slot].active_thread_count.checked_add(1) {
                None => Err(abi::SYS_ERR_BUSY),
                Some(count) => {
                    spaces.spaces[slot].active_thread_count = count;
                    Ok(())
                },
            }
        },
    }
}

/// Counts one thread less; a stale handle or a zero count changes nothing.
pub fn remove_thread(spaces: &mut VSpaces, handle: u64)
    requires
        old(spaces).wf(),
    ensures
        *final(spaces) == old(spaces).thread_removed(handle),
        final(spaces).wf(),
{
    if let Some(found) = decode_handle(handle, MAX_VSPACES) {
        let slot: usize = found.0;
        let entry: VSpaceEntry = spaces.spaces[slot];
        assert(crate::handle::generation_ok(spaces.spaces@[slot as int].generation));
        if entry.generation == found.1 && entry.active_thread_count != 0 {
            spaces.spaces[slot].active_thread_count = entry.active_thread_count - 1;
        }
    }
}

/// Counts one more frame mapping in an active address space.
pub fn add_mapping(spaces: &mut VSpaces, handle: u64) -> (r: Result<(), u64>)
    requires
        old(spaces).wf(),
    ensures
        match old(spaces).find(handle) {
            Err(error) => r == Err::<(), u64>(error) && *final(spaces) == *old(spaces),
            Ok(slot) => if old(spaces).spaces@[slot].mapping_count == u16::MAX {
                r == Err::<(), u64>(abi::SYS_ERR_BUSY) && *final(spaces) == *old(spaces)
            } else {
                r is Ok && *final(spaces) == old(spaces).mapping_added(slot)
            },
        },
        final(spaces).wf(),
{
    match find(spaces, handle) {
        Err(error) => Err(error),
        Ok(slot) => {
            assert(crate::handle::generation_ok(spaces.spaces@[slot as int].generation));
            match spaces.spaces[slot].mapping_count.checked_add(1) {
                None => Err(abi::SYS_ERR_BUSY),
                Some(count) => {
                    spaces.spaces[slot].mapping_count = count;
                    Ok(())
                },
            }
        },
    }
}

/// Counts one frame mapping less; a stale handle or a zero count changes nothing.
pub fn remove_mapping(spaces: &mut VSpaces, handle: u64)
    requires
        old(spaces).wf(),
    ensures
        *final(spaces) == old(spaces).mapping_removed(handle),
        final(spaces).wf(),
{
    if let Some(found) = decode_handle(handle, MAX_VSPACES) {
        let slot: usize = found.0;
        let entry: VSpaceEntry = spaces.spaces[slot];
        assert(crate::handle::generation_ok(spaces.spaces@[slot as int].generation));
        if entry.generation == found.1 && entry.mapping_count != 0 {
            spaces.spaces[slot].mapping_count = entry.mapping_count - 1;
        }
    }
}

impl MachineView {
    /// Processor `cpu` uses the address space in `slot`, which `handle` names.
    pub open spec fn switched(self, cpu: usize, handle: u64, slot: int) -> MachineView {
        if self.k.spaces.handle_on(cpu) == handle {
            self
        } else {
            let entry = self.k.spaces.spaces@[slot];
            let place = if cpu < 4 {
                cpu as int
            } else {
                3
            };
            let s = self.op(HwOp::SwitchTable { root: entry.root_pa, asid: entry.asid });
            MachineView {
                k: Kernel {
                    spaces: VSpaces {
                        current: self.k.spaces.current.upd(place, handle),
                        ..self.k.spaces
                    },
                    active_table: entry.root_pa,
                    ..s.k
                },
                ..s
            }
        }
    }
}

/// Makes `handle` the address space of this processor. The table is switched only when it is
/// another one than before.
pub fn switch_to(m: &mut Machine, cx: &Entry, handle: u64) -> (r: Result<(), u64>)
    requires
        old(m)@.wf(),
    ensures
        match old(m)@.k.spaces.find_for(old(m)@.k.task.owner(), handle) {
            Err(error) => r == Err::<(), u64>(error) && final(m)@ == old(m)@,
            Ok(slot) => r is Ok && final(m)@ == old(m)@.switched(cx.cpu, handle, slot),
        },
        final(m)@.wf(),
{
    let owner: u32 = crate::object::task::current_owner(&m.k.task);
    let found: (u64, u16) = match resolve_for_owner(&m.k.spaces, owner, handle) {
        Err(error) => {
            return Err(error);
        },
        Ok(found) => found,
    };
    let place: usize = if cx.cpu < abi::MAX_CPUS {
        cx.cpu
    } else {
        abi::MAX_CPUS - 1
    };
    if m.k.spaces.current[place] != handle {
        m.ops.push(HwOp::SwitchTable { root: found.0, asid: found.1 });
        m.k.active_table = found.0;
        m.k.spaces.current[place] = handle;
    }
    Ok(())
}

impl VSpaces {
    /// One of the recorded device blocks is `block`.
    pub open spec fn has_block(self, block: u64) -> bool {
        exists|i: int| 0 <= i < self.device_count && #[trigger] self.device_blocks@[i] == block
    }

    /// The 2 MiB block of the device at `pa` is recorded, unless it is block zero or known.
    pub open spec fn with_block(self, pa: u64) -> VSpaces {
        let block = (pa - pa % 0x20_0000) as u64;
        if block == 0 || self.has_block(block) {
            self
        } else {
            VSpaces {
                device_blocks: self.device_blocks.upd(self.device_count as int, block),
                device_count: (self.device_count + 1) as usize,
                ..self
            }
        }
    }

    /// The table with the device blocks of three devices and nothing else recorded.
    pub open spec fn with_devices(self, uart_pa: u64, gicd_pa: u64, gicc_pa: u64) -> VSpaces {
        (VSpaces {
            device_blocks: crate::util::filled(0),
            device_count: 0,
            ..self
        }).with_block(uart_pa).with_block(gicd_pa).with_block(gicc_pa)
    }

    /// The table of the kernel becomes the first address space, in use on every processor.
    pub open spec fn initialized(self, root: u64, uart_pa: u64, gicd_pa: u64, gicc_pa: u64)
        -> VSpaces {
        let generation = self.spaces@[0].generation;
        VSpaces {
            current: crate::util::filled(crate::handle::handle_of(0, generation) as u64),
            ..self.with_devices(uart_pa, gicd_pa, gicc_pa).with_space(
                0,
                VSpaceEntry {
                    generation,
                    active: true,
                    root_pa: root,
                    asid: 1,
                    creator_owner: 1,
                    active_thread_count: 1,
                    mapping_count: 0,
                },
            )
        }
    }

    /// The first address space that is not in use, at place `from` or later.
    pub open spec fn free_space(self, from: int) -> Option<int>
        decreases 8 - from,
    {
        if from < 0 || from >= 8 {
            None
        } else if !self.spaces@[from].active {
            Some(from)
        } else {
            self.free_space(from + 1)
        }
    }
}

fn add_block(spaces: &mut VSpaces, pa: u64)
    requires
        old(spaces).device_count < 3,
    ensures
        *final(spaces) == old(spaces).with_block(pa),
        final(spaces).device_count <= old(spaces).device_count + 1,
{
    let block: u64 = pa & !0x1f_ffff;
    assert(pa & !0x1f_ffff == pa - pa % 0x20_0000) by (bit_vector);
    if block == 0 {
        return;
    }
    let mut i: usize = 0;
    while i < spaces.device_count
        invariant
            *spaces == *old(spaces),
            spaces.device_count < 3,
            i <= spaces.device_count,
            block == (pa - pa % 0x20_0000) as u64,
            block != 0,
            forall|j: int| 0 <= j < i ==> spaces.device_blocks@[j] != block,
        decreases spaces.device_count - i,
    {
        if spaces.device_blocks[i] == block {
            return;
        }
        i = i + 1;
    }
    let place: usize = spaces.device_count;
    spaces.device_blocks[place] = block;
    spaces.device_count = place + 1;
}

/// Records the table that the kernel started with as the first address space, and the device
/// blocks that the kernel needs in every other one.
pub fn initialize(spaces: &mut VSpaces, initial_root: u64, uart_pa: u64, gicd_pa: u64, gicc_pa: u64)
    requires
        old(spaces).wf(),
    ensures
        *final(spaces) == old(spaces).initialized(initial_root, uart_pa, gicd_pa, gicc_pa),
        final(spaces).wf(),
{
    assert(crate::handle::generation_ok(spaces.spaces@[0].generation));
    spaces.device_blocks = [0u64; 3];
    spaces.device_count = 0;
    add_block(spaces, uart_pa);
    add_block(spaces, gicd_pa);
    add_block(spaces, gicc_pa);
    let generation: u32 = spaces.spaces[0].generation;
    spaces.spaces[0] = VSpaceEntry {
        generation,
        active: true,
        root_pa: initial_root,
        asid: 1,
        creator_owner: 1,
        active_thread_count: 1,
        mapping_count: 0,
    };
    let handle: u64 = make_handle(0, generation);
    spaces.current = [handle; 4];
}

impl MachineView {
    /// The first `k` device blocks are mapped for the kernel under `root`.
    pub open spec fn map_devices(self, root: u64, k: int) -> (MachineView, Option<Fault>)
        decreases k,
    {
        if k <= 0 {
            (self, None)
        } else {
            let (s, fault) = self.map_devices(root, k - 1);
            if fault is Some {
                (s, fault)
            } else {
                let block = self.k.spaces.device_blocks@[k - 1];
                s.map_block(root, block as int, block, mmu::MMU_DEV)
            }
        }
    }

    /// A table that could not be completed is taken apart again.
    pub open spec fn drop_table(self, root: u64) -> (MachineView, Option<Fault>) {
        match mmu::table_of(self.tables, root, 0) {
            None => (self, None),
            Some(i) => {
                let pages = self.tables[i].all_pages();
                let (mem, full) = self.k.mem.freed_each(pages, pages.len() as int);
                (
                    (MachineView { tables: self.tables.remove(i), ..self }).with_mem(mem),
                    if full {
                        Some(Fault::RangeTableFull)
                    } else {
                        None
                    },
                )
            },
        }
    }

    /// A table that memory did not suffice for goes, and the request for it fails.
    pub open spec fn abandon_table(self, root: u64) -> (MachineView, Result<u64, Fault>) {
        let (s, full) = self.drop_table(root);
        match full {
            Some(fault) => (s, Err(fault)),
            None => (s, Ok(abi::SYS_ERR_NO_MEMORY)),
        }
    }

    /// A new address space: the kernel's identity map and device blocks, and an empty user
    /// window. If a table for it cannot be had, all its tables go back.
    pub open spec fn vspace_create(self, owner: u32) -> (MachineView, Result<u64, Fault>) {
        if owner == 0 {
            (self, Ok(abi::SYS_ERR_DENIED))
        } else {
            match self.k.spaces.free_space(1) {
                None => (self, Ok(abi::SYS_ERR_NO_SLOT)),
                Some(slot) => {
                    let (s, table) = self.new_table();
                    match table {
                        None => (s, Ok(abi::SYS_ERR_NO_MEMORY)),
                        Some(root) => {
                            let (t, fault) = s.map_blocks(
                                root,
                                0,
                                mmu::MMU_KERNEL,
                                abi::USER_BASE as int,
                                abi::USER_WINDOW_END as int,
                                0xc00,
                            );
                            if fault is Some {
                                t.abandon_table(root)
                            } else {
                                let (u, missing) = t.map_devices(
                                    root,
                                    t.k.spaces.device_count as int,
                                );
                                match missing {
                                    Some(_) => u.abandon_table(root),
                                    None => {
                                        let v = u.op(HwOp::FlushTlb);
                                        let generation = self.k.spaces.spaces@[slot].generation;
                                        (
                                            v.with_spaces(
                                                v.k.spaces.with_space(
                                                    slot,
                                                    VSpaceEntry {
                                                        generation,
                                                        active: true,
                                                        root_pa: root,
                                                        asid: (slot + 1) as u16,
                                                        creator_owner: owner,
                                                        active_thread_count: 0,
                                                        mapping_count: 0,
                                                    },
                                                ),
                                            ),
                                            Ok(crate::handle::handle_of(slot, generation) as u64),
                                        )
                                    },
                                }
                            }
                        },
                    }
                },
            }
        }
    }

    /// An address space without threads and mappings goes, with its table.
    pub open spec fn vspace_destroy(self, owner: u32, handle: u64) -> (
        MachineView,
        Result<u64, Fault>,
    ) {
        match crate::handle::decoded(handle, 8) {
            None => (self, Ok(abi::SYS_ERR_INVALID)),
            Some(found) => if found.0 == 0 {
                (self, Ok(abi::SYS_ERR_DENIED))
            } else {
                match self.k.spaces.find_for(owner, handle) {
                    Err(error) => (self, Ok(error)),
                    Ok(slot) => {
                        let entry = self.k.spaces.spaces@[slot];
                        if entry.active_thread_count != 0 || entry.mapping_count != 0 {
                            (self, Ok(abi::SYS_ERR_BUSY))
                        } else {
                            let (s, full) = self.drop_table(entry.root_pa);
                            match full {
                                Some(fault) => (s, Err(fault)),
                                None => {
                                    let t = s.op(HwOp::FlushTlb);
                                    (
                                        t.with_spaces(
                                            t.k.spaces.with_space(
                                                slot,
                                                VSpaceEntry::empty(
                                                    crate::handle::generation_after(
                                                        entry.generation,
                                                    ),
                                                ),
                                            ),
                                        ),
                                        Ok(0),
                                    )
                                },
                            }
                        }
                    },
                }
            },
        }
    }
}

fn abandon_table(m: &mut Machine, root: u64) -> (r: Result<u64, Fault>)
    requires
        old(m)@.wf(),
    ensures
        (final(m)@, r) == old(m)@.abandon_table(root),
        final(m)@.wf(),
{
    match mmu::destroy_table(m, root) {
        Err(fault) => Err(fault),
        Ok(()) => Ok(abi::SYS_ERR_NO_MEMORY),
    }
}

/// Makes an address space with an empty user window for `owner`.
pub fn create(m: &mut Machine, owner: u32) -> (r: Result<u64, Fault>)
    requires
        old(m)@.wf(),
    ensures
        (final(m)@, r) == old(m)@.vspace_create(owner),
        final(m)@.wf(),
{
    if owner == 0 {
        return Ok(abi::SYS_ERR_DENIED);
    }
    let mut slot: usize = 1;
    while slot < MAX_VSPACES && m.k.spaces.spaces[slot].active
        invariant
            1 <= slot <= 8,
            *m == *old(m),
            m.k.spaces.free_space(1) == m.k.spaces.free_space(slot as int),
        decreases 8 - slot,
    {
        slot = slot + 1;
    }
    if slot == MAX_VSPACES {
        return Ok(abi::SYS_ERR_NO_SLOT);
    }
    let generation: u32 = m.k.spaces.spaces[slot].generation;
    let root: u64 = match mmu::try_create_table(m) {
        None => {
            return Ok(abi::SYS_ERR_NO_MEMORY);
        },
        Some(root) => root,
    };
    proof {
        mmu::lemma_kernel_presets();
    }
    let ghost made = m@;
    proof {
        crate::util::lemma_round_up(0x1_8000_0000, 0x20_0000);
        assert(mmu::blocks_in(0, 0x1_8000_0000) == 0xc00);
    }
    if mmu::map_range_2m(
        m,
        root,
        0,
        0x1_8000_0000,
        mmu::MMU_KERNEL,
        abi::USER_BASE,
        abi::USER_WINDOW_END,
    ).is_err() {
        return abandon_table(m, root);
    }
    let ghost mapped = m@;
    proof {
        reveal(MachineView::new_table);
        lemma_map_blocks_frame(
            made,
            root,
            0,
            mmu::MMU_KERNEL,
            abi::USER_BASE as int,
            abi::USER_WINDOW_END as int,
            0xc00,
        );
        assert(m.k.spaces == old(m)@.k.spaces);
    }
    let mut k: usize = 0;
    while k < m.k.spaces.device_count
        invariant
            m@.wf(),
            mmu::MMU_DEV & 3 == 0,
            mapped.k.spaces == old(m)@.k.spaces,
            m.k.spaces == mapped.k.spaces,
            k <= m.k.spaces.device_count <= 3,
            (m@, None::<Fault>) == mapped.map_devices(root, k as int),
            old(m)@.vspace_create(owner) == ({
                let (u, missing) = mapped.map_devices(root, mapped.k.spaces.device_count as int);
                match missing {
                    Some(_) => u.abandon_table(root),
                    None => {
                        let v = u.op(HwOp::FlushTlb);
                        (
                            v.with_spaces(
                                v.k.spaces.with_space(
                                    slot as int,
                                    VSpaceEntry {
                                        generation,
                                        active: true,
                                        root_pa: root,
                                        asid: (slot + 1) as u16,
                                        creator_owner: owner,
                                        active_thread_count: 0,
                                        mapping_count: 0,
                                    },
                                ),
                            ),
                            Ok(crate::handle::handle_of(slot as int, generation) as u64),
                        )
                    },
                }
            }),
        decreases m.k.spaces.device_count - k,
    {
        let block: u64 = m.k.spaces.device_blocks[k];
        let ghost before = m@;
        if mmu::map_block_2m(m, root, block, block, mmu::MMU_DEV).is_err() {
            proof {
                lemma_map_devices_stops(mapped, root, k + 1, mapped.k.spaces.device_count as int);
            }
            return abandon_table(m, root);
        }
        proof {
            lemma_map_block_frame(before, root, block as int, block, mmu::MMU_DEV);
        }
        k = k + 1;
    }
    mmu::flush_el1_tlb(m);
    assert(crate::handle::generation_ok(m.k.spaces.spaces@[slot as int].generation));
    m.k.spaces.spaces[slot] = VSpaceEntry {
        generation,
        active: true,
        root_pa: root,
        asid: (slot + 1) as u16,
        creator_owner: owner,
        active_thread_count: 0,
        mapping_count: 0,
    };
    Ok(make_handle(slot, generation))
}

proof fn lemma_map_devices_stops(s: MachineView, root: u64, n: int, k: int)
    requires
        0 <= n <= k,
        s.map_devices(root, n).1 is Some,
    ensures
        s.map_devices(root, k) == s.map_devices(root, n),
    decreases k - n,
{
    if n < k {
        lemma_map_devices_stops(s, root, n, k - 1);
    }
}

/// Mapping a block touches tables, free pages and operations, nothing else.
pub(crate) proof fn lemma_map_block_frame(s: MachineView, root: u64, va: int, pa: u64, flags: u64)
    ensures
        s.map_block(root, va, pa, flags).0.k == (Kernel {
            mem: s.map_block(root, va, pa, flags).0.k.mem,
            ..s.k
        }),
{
    reveal(MachineView::map_block);
}

pub(crate) proof fn lemma_map_blocks_frame(
    s: MachineView,
    root: u64,
    va: int,
    flags: u64,
    skip_start: int,
    skip_end: int,
    n: int,
)
    ensures
        s.map_blocks(root, va, flags, skip_start, skip_end, n).0.k == (Kernel {
            mem: s.map_blocks(root, va, flags, skip_start, skip_end, n).0.k.mem,
            ..s.k
        }),
    decreases n,
{
    reveal(MachineView::map_blocks);
    if n > 0 {
        lemma_map_blocks_frame(s, root, va, flags, skip_start, skip_end, n - 1);
        let before = s.map_blocks(root, va, flags, skip_start, skip_end, n - 1).0;
        let at = va + (n - 1) * 0x20_0000;
        lemma_map_block_frame(before, root, at, at as u64, flags);
    }
}

/// Gives an address space up. Denied for the first one; busy while threads or mappings use it.
pub fn destroy(m: &mut Machine, owner: u32, handle: u64) -> (r: Result<u64, Fault>)
    requires
        old(m)@.wf(),
    ensures
        (final(m)@, r) == old(m)@.vspace_destroy(owner, handle),
        final(m)@.wf(),
{
    let found: (usize, u32) = match decode_handle(handle, MAX_VSPACES) {
        None => {
            return Ok(abi::SYS_ERR_INVALID);
        },
        Some(found) => found,
    };
    let slot: usize = found.0;
    if slot == 0 {
        return Ok(abi::SYS_ERR_DENIED);
    }
    let entry: VSpaceEntry = m.k.spaces.spaces[slot];
    assert(crate::handle::generation_ok(m.k.spaces.spaces@[slot as int].generation));
    if !entry.active || entry.generation != found.1 {
        return Ok(abi::SYS_ERR_NOT_FOUND);
    }
    if entry.creator_owner != owner {
        return Ok(abi::SYS_ERR_DENIED);
    }
    if entry.active_thread_count != 0 || entry.mapping_count != 0 {
        return Ok(abi::SYS_ERR_BUSY);
    }
    if let Err(fault) = mmu::destroy_table(m, entry.root_pa) {
        return Err(fault);
    }
    mmu::flush_el1_tlb(m);
    m.k.spaces.spaces[slot] = VSpaceEntry {
        generation: next_generation(entry.generation),
        active: false,
        root_pa: 0,
        asid: 0,
        creator_owner: 0,
        active_thread_count: 0,
        mapping_count: 0,
    };
    Ok(0)
}

/// The rights include writing.
pub open spec fn writes(rights: u64) -> bool {
    rights & abi::FRAME_RIGHT_WRITE != 0
}

/// The rights include executing.
pub open spec fn executes(rights: u64) -> bool {
    rights & abi::FRAME_RIGHT_EXECUTE != 0
}

/// The page attributes for a set of rights; only read, read-write and read-execute exist.
pub open spec fn flags_for(rights: u64) -> Option<u64> {
    if rights == 1 {
        Some(mmu::MMU_USER_RO)
    } else if rights == 3 {
        Some(mmu::MMU_USER_RW)
    } else if rights == 5 {
        Some(mmu::MMU_USER_RX)
    } else {
        None
    }
}

/// A page-aligned run of at least one page inside `[low, high)`.
pub open spec fn run_inside(va: u64, pages: u64, low: int, high: int) -> bool {
    &&& pages != 0
    &&& va % 4096 == 0
    &&& low <= va
    &&& va + pages * 4096 <= high
}

pub open spec fn in_frame_arena(va: u64, pages: u64) -> bool {
    run_inside(va, pages, abi::FRAME_ARENA_BASE as int, abi::FRAME_ARENA_END as int)
}

pub open spec fn in_heap_window(va: u64, pages: u64) -> bool {
    run_inside(
        va,
        pages,
        abi::USER_HEAP_BASE as int,
        abi::USER_HEAP_BASE + abi::USER_HEAP_SIZE,
    )
}

pub open spec fn in_process_window(va: u64, pages: u64) -> bool {
    run_inside(va, pages, abi::USER_BASE as int, abi::USER_WINDOW_END as int) || in_frame_arena(
        va,
        pages,
    )
}

impl VSpaces {
    /// A mapping of the same frame stands against `rights`: one may write what the other may
    /// execute.
    pub open spec fn forbids(self, frame_handle: u64, rights: u64) -> bool {
        exists|i: int|
            0 <= i < 128 && (#[trigger] self.mappings@[i]).owner != 0
                && self.mappings@[i].frame_handle == frame_handle && ((writes(rights) && executes(
                self.mappings@[i].rights,
            )) || (executes(rights) && writes(self.mappings@[i].rights)))
    }

    /// The first unused mapping entry at place `from` or later.
    pub open spec fn free_mapping(self, from: int) -> Option<int>
        decreases 128 - from,
    {
        if from < 0 || from >= 128 {
            None
        } else if self.mappings@[from].owner == 0 {
            Some(from)
        } else {
            self.free_mapping(from + 1)
        }
    }
}

impl MachineView {
    /// The counts that a failed mapping had taken are given back.
    pub open spec fn uncount_mapping(self, owner: u32, vspace: u64, frame_handle: u64) -> MachineView {
        self.with_spaces(self.k.spaces.mapping_removed(vspace)).with_frames(
            frame::mapping_removed(self.k.frames, owner, frame_handle).0,
        )
    }

    /// Part of a frame is mapped into an address space.
    pub open spec fn map_frame(
        self,
        owner: u32,
        vspace: u64,
        frame_handle: u64,
        offset_pages: u64,
        pages: u64,
        va: u64,
        rights: u64,
        arena_only: bool,
    ) -> (MachineView, u64) {
        let window = if arena_only {
            in_frame_arena(va, pages) || in_heap_window(va, pages)
        } else {
            in_process_window(va, pages)
        };
        if owner == 0 || !window {
            (self, abi::SYS_ERR_INVALID)
        } else if flags_for(rights) is None {
            (self, abi::SYS_ERR_DENIED)
        } else {
            match frame::entry_of(self.k.frames, owner, frame_handle) {
                Err(_) => (self, abi::SYS_ERR_NOT_FOUND),
                Ok(frame_slot) => {
                    let entry = self.k.frames@[frame_slot];
                    if offset_pages + pages > entry.pages {
                        (self, abi::SYS_ERR_INVALID)
                    } else {
                        match self.k.spaces.find_for(owner, vspace) {
                            Err(_) => (self, abi::SYS_ERR_NOT_FOUND),
                            Ok(space) => self.map_frame_at(
                                owner,
                                vspace,
                                space,
                                frame_handle,
                                frame_slot,
                                offset_pages,
                                pages,
                                va,
                                rights,
                            ),
                        }
                    }
                },
            }
        }
    }

    /// The second half of mapping a frame, once every argument has been accepted.
    pub open spec fn map_frame_at(
        self,
        owner: u32,
        vspace: u64,
        space: int,
        frame_handle: u64,
        frame_slot: int,
        offset_pages: u64,
        pages: u64,
        va: u64,
        rights: u64,
    ) -> (MachineView, u64) {
        let entry = self.k.frames@[frame_slot];
        let root = self.k.spaces.spaces@[space].root_pa;
        if self.k.spaces.forbids(frame_handle, rights) {
            (self, abi::SYS_ERR_DENIED)
        } else {
            match self.k.spaces.free_mapping(0) {
                None => (self, abi::SYS_ERR_NO_SLOT),
                Some(slot) => {
                    let pa = (entry.pa + offset_pages * 4096) as u64;
                    let s = if executes(rights) {
                        self.op(HwOp::SyncForExec { pa, pages })
                    } else {
                        self
                    };
                    if entry.mapping_count == u32::MAX {
                        (s, abi::SYS_ERR_INVALID)
                    } else if self.k.spaces.spaces@[space].mapping_count == u16::MAX {
                        (s, abi::SYS_ERR_BUSY)
                    } else {
                        let counted = s.with_frames(
                            frame::mapping_counted(s.k.frames, frame_slot, 1),
                        ).with_spaces(s.k.spaces.mapping_added(space));
                        let (t, error) = counted.map_checked(
                            root,
                            va as int,
                            pa as int,
                            flags_for(rights)->0,
                            pages as int,
                        );
                        match error {
                            Some(MapError::Conflict) => (
                                t.uncount_mapping(owner, vspace, frame_handle),
                                abi::SYS_ERR_CONFLICT,
                            ),
                            Some(MapError::NoMemory) => (
                                t.uncount_mapping(owner, vspace, frame_handle),
                                abi::SYS_ERR_NO_MEMORY,
                            ),
                            None => {
                                let generation = self.k.spaces.mappings@[slot].generation;
                                (
                                    t.with_spaces(
                                        t.k.spaces.with_mapping(
                                            slot,
                                            MappingEntry {
                                                owner,
                                                generation,
                                                frame_handle,
                                                frame_pa: entry.pa,
                                                target_vspace: vspace,
                                                target_root: root,
                                                offset_pages,
                                                pages,
                                                va,
                                                rights,
                                            },
                                        ),
                                    ),
                                    crate::handle::handle_of(slot, generation) as u64,
                                )
                            },
                        }
                    }
                },
            }
        }
    }

    /// A mapping is taken away, if the pages still map what it put there.
    pub open spec fn unmap_handle(self, owner: u32, handle: u64) -> (MachineView, u64) {
        match crate::handle::decoded(handle, 128) {
            None => (self, abi::SYS_ERR_INVALID),
            Some(found) => {
                let slot = found.0;
                let entry = self.k.spaces.mappings@[slot];
                let pa = entry.frame_pa + entry.offset_pages * 4096;
                if entry.owner != owner || entry.generation != found.1 {
                    (self, abi::SYS_ERR_NOT_FOUND)
                } else if entry.pages == 0 || !self.run_maps(
                    entry.target_root,
                    entry.va as int,
                    pa,
                    entry.pages as int,
                ) {
                    (self, abi::SYS_ERR_CONFLICT)
                } else {
                    let (s, removed) = self.unmap_run(
                        entry.target_root,
                        entry.va as int,
                        entry.pages as int,
                    );
                    if removed != entry.pages {
                        (s, abi::SYS_ERR_CONFLICT)
                    } else {
                        let t = s.op(HwOp::FlushTlb);
                        let (frames, counted) = frame::mapping_removed(
                            t.k.frames,
                            owner,
                            entry.frame_handle,
                        );
                        if counted is Err {
                            (t, abi::SYS_ERR_INVALID)
                        } else {
                            (
                                t.with_frames(frames).with_spaces(
                                    t.k.spaces.mapping_removed(entry.target_vspace).with_mapping(
                                        slot,
                                        MappingEntry::empty(
                                            crate::handle::generation_after(entry.generation),
                                        ),
                                    ),
                                ),
                                0,
                            )
                        }
                    }
                }
            },
        }
    }
}

fn mapping_flags(rights: u64) -> (r: Option<u64>)
    ensures
        r == flags_for(rights),
{
    if rights == abi::FRAME_RIGHT_READ {
        Some(mmu::MMU_USER_RO)
    } else if rights == abi::FRAME_RIGHT_READ + abi::FRAME_RIGHT_WRITE {
        Some(mmu::MMU_USER_RW)
    } else if rights == abi::FRAME_RIGHT_READ + abi::FRAME_RIGHT_EXECUTE {
        Some(mmu::MMU_USER_RX)
    } else {
        None
    }
}

fn run_end(va: u64, pages: u64) -> (r: Option<u64>)
    ensures
        match r {
            Some(end) => pages != 0 && va % 4096 == 0 && end == va + pages * 4096,
            None => pages == 0 || va % 4096 != 0 || va + pages * 4096 > u64::MAX,
        },
{
    assert(va & 0xfff == va % 4096) by (bit_vector);
    if pages == 0 || (va & (abi::PAGE_SIZE - 1)) != 0 {
        return None;
    }
    match pages.checked_mul(abi::PAGE_SIZE) {
        None => None,
        Some(bytes) => va.checked_add(bytes),
    }
}

fn va_in_frame_arena(va: u64, pages: u64) -> (r: bool)
    ensures
        r == in_frame_arena(va, pages),
{
    match run_end(va, pages) {
        None => false,
        Some(end) => va >= abi::FRAME_ARENA_BASE && end <= abi::FRAME_ARENA_END,
    }
}

fn va_in_heap_window(va: u64, pages: u64) -> (r: bool)
    ensures
        r == in_heap_window(va, pages),
{
    match run_end(va, pages) {
        None => false,
        Some(end) => va >= abi::USER_HEAP_BASE && end <= abi::USER_HEAP_BASE + abi::USER_HEAP_SIZE,
    }
}

fn va_in_process_window(va: u64, pages: u64) -> (r: bool)
    ensures
        r == in_process_window(va, pages),
{
    match run_end(va, pages) {
        None => false,
        Some(end) => (va >= abi::USER_BASE && end <= abi::USER_WINDOW_END) || (va
            >= abi::FRAME_ARENA_BASE && end <= abi::FRAME_ARENA_END),
    }
}

/// Maps part of a frame of `owner` into the address space of this processor.
pub fn map_frame(
    m: &mut Machine,
    cx: &Entry,
    owner: u32,
    frame_handle: u64,
    offset_pages: u64,
    pages: u64,
    va: u64,
    rights: u64,
) -> (r: u64)
    requires
        old(m)@.wf(),
    ensures
        (final(m)@, r) == old(m)@.map_frame(
            owner,
            old(m)@.k.spaces.handle_on(cx.cpu),
            frame_handle,
            offset_pages,
            pages,
            va,
            rights,
            true,
        ),
        final(m)@.wf(),
{
    let vspace: u64 = current_handle(&m.k.spaces, cx.cpu);
    map_frame_inner(m, owner, vspace, frame_handle, offset_pages, pages, va, rights, true)
}

/// Maps part of a frame of `owner` into an address space that `owner` created.
pub fn map_frame_to(
    m: &mut Machine,
    owner: u32,
    target_vspace: u64,
    frame_handle: u64,
    offset_pages: u64,
    pages: u64,
    va: u64,
    rights: u64,
) -> (r: u64)
    requires
        old(m)@.wf(),
    ensures
        (final(m)@, r) == old(m)@.map_frame(
            owner,
            target_vspace,
            frame_handle,
            offset_pages,
            pages,
            va,
            rights,
            false,
        ),
        final(m)@.wf(),
{
    map_frame_inner(m, owner, target_vspace, frame_handle, offset_pages, pages, va, rights, false)
}

/// Looks through every mapping of a frame for one that forbids `rights`, and for a free entry.
fn scan_mappings(spaces: &VSpaces, frame_handle: u64, rights: u64) -> (r: Result<usize, u64>)
    ensures
        match r {
            Ok(slot) => slot < 128 && !spaces.forbids(frame_handle, rights)
                && spaces.free_mapping(0) == Some(slot as int),
            Err(error) => if spaces.forbids(frame_handle, rights) {
                error == abi::SYS_ERR_DENIED
            } else {
                error == abi::SYS_ERR_NO_SLOT && spaces.free_mapping(0) is None
            },
        },
{
    let wants_write: bool = rights & abi::FRAME_RIGHT_WRITE != 0;
    let wants_execute: bool = rights & abi::FRAME_RIGHT_EXECUTE != 0;
    let mut found: Option<usize> = None;
    let mut index: usize = 0;
    while index < MAX_FRAME_MAPPINGS
        invariant
            index <= 128,
            wants_write == writes(rights),
            wants_execute == executes(rights),
            match found {
                Some(slot) => slot < 128 && spaces.free_mapping(0) == Some(slot as int),
                None => spaces.free_mapping(0) == spaces.free_mapping(index as int),
            },
            forall|i: int|
                0 <= i < index ==> !((#[trigger] spaces.mappings@[i]).owner != 0
                    && spaces.mappings@[i].frame_handle == frame_handle && ((wants_write
                    && executes(spaces.mappings@[i].rights)) || (wants_execute && writes(
                    spaces.mappings@[i].rights,
                )))),
        decreases 128 - index,
    {
        let mapping: MappingEntry = spaces.mappings[index];
        if mapping.owner != 0 && mapping.frame_handle == frame_handle {
            let has_write: bool = mapping.rights & abi::FRAME_RIGHT_WRITE != 0;
            let has_execute: bool = mapping.rights & abi::FRAME_RIGHT_EXECUTE != 0;
            if (wants_write && has_execute) || (wants_execute && has_write) {
                assert(spaces.mappings@[index as int].owner != 0);
                return Err(abi::SYS_ERR_DENIED);
            }
        }
        if mapping.owner == 0 && found.is_none() {
            found = Some(index);
        }
        index = index + 1;
    }
    match found {
        Some(slot) => Ok(slot),
        None => Err(abi::SYS_ERR_NO_SLOT),
    }
}

fn map_frame_inner(
    m: &mut Machine,
    owner: u32,
    target_vspace: u64,
    frame_handle: u64,
    offset_pages: u64,
    pages: u64,
    va: u64,
    rights: u64,
    current_arena_only: bool,
) -> (r: u64)
    requires
        old(m)@.wf(),
    ensures
        (final(m)@, r) == old(m)@.map_frame(
            owner,
            target_vspace,
            frame_handle,
            offset_pages,
            pages,
            va,
            rights,
            current_arena_only,
        ),
        final(m)@.wf(),
{
    let window: bool = if current_arena_only {
        va_in_frame_arena(va, pages) || va_in_heap_window(va, pages)
    } else {
        va_in_process_window(va, pages)
    };
    if owner == 0 || !window {
        return abi::SYS_ERR_INVALID;
    }
    let flags: u64 = match mapping_flags(rights) {
        None => {
            return abi::SYS_ERR_DENIED;
        },
        Some(flags) => flags,
    };
    let found: (usize, u64, u64) = match frame::resolve(&m.k.frames, owner, frame_handle) {
        Err(_) => {
            return abi::SYS_ERR_NOT_FOUND;
        },
        Ok(found) => found,
    };
    let frame_pa: u64 = found.1;
    assert(m.k.frames@[found.0 as int].wf());
    match offset_pages.checked_add(pages) {
        None => {
            return abi::SYS_ERR_INVALID;
        },
        Some(end_page) => {
            if end_page > found.2 {
                return abi::SYS_ERR_INVALID;
            }
        },
    }
    let root: u64 = match resolve_for_owner(&m.k.spaces, owner, target_vspace) {
        Err(_) => {
            return abi::SYS_ERR_NOT_FOUND;
        },
        Ok(found) => found.0,
    };
    let ghost space = m.k.spaces.find_for(owner, target_vspace)->Ok_0;
    let slot: usize = match scan_mappings(&m.k.spaces, frame_handle, rights) {
        Err(error) => {
            return error;
        },
        Ok(slot) => slot,
    };
    assert(m.k.spaces.mappings@[slot as int].wf());
    let generation: u32 = m.k.spaces.mappings[slot].generation;
    let pa: u64 = frame_pa + offset_pages * 4096;
    if rights & abi::FRAME_RIGHT_EXECUTE != 0 {
        mmu::sync_for_exec(m, pa, pages);
    }
    if frame::add_mapping(&mut m.k.frames, owner, frame_handle).is_err() {
        return abi::SYS_ERR_INVALID;
    }
    if add_mapping(&mut m.k.spaces, target_vspace).is_err() {
        let _ = frame::remove_mapping(&mut m.k.frames, owner, frame_handle);
        assert(m.k.frames =~= old(m)@.k.frames);
        return abi::SYS_ERR_BUSY;
    }
    let ghost counted = m@;
    proof {
        let s = if executes(rights) {
            old(m)@.op(HwOp::SyncForExec { pa, pages })
        } else {
            old(m)@
        };
        assert(counted =~= s.with_frames(
            frame::mapping_counted(s.k.frames, found.0 as int, 1),
        ).with_spaces(s.k.spaces.mapping_added(space)));
        lemma_map_checked_frame(counted, root, va as int, pa as int, flags, pages as int);
    }
    match mmu::map_checked(m, root, va, pa, flags, pages) {
        Ok(()) => {},
        Err(MapError::Conflict) => {
            remove_mapping(&mut m.k.spaces, target_vspace);
            let _ = frame::remove_mapping(&mut m.k.frames, owner, frame_handle);
            return abi::SYS_ERR_CONFLICT;
        },
        Err(MapError::NoMemory) => {
            remove_mapping(&mut m.k.spaces, target_vspace);
            let _ = frame::remove_mapping(&mut m.k.frames, owner, frame_handle);
            return abi::SYS_ERR_NO_MEMORY;
        },
    }
    m.k.spaces.mappings[slot] = MappingEntry {
        owner,
        generation,
        frame_handle,
        frame_pa,
        target_vspace,
        target_root: root,
        offset_pages,
        pages,
        va,
        rights,
    };
    make_handle(slot, generation)
}

/// Building tables touches tables, free pages and operations, nothing else.
pub(crate) proof fn lemma_build_frame(s: MachineView, i: int, va: int)
    ensures
        s.build(i, va).0.k == (Kernel { mem: s.build(i, va).0.k.mem, ..s.k }),
{
    reveal(MachineView::build);
}

pub(crate) proof fn lemma_unmap_run_frame(s: MachineView, root: u64, va: int, n: int)
    ensures
        s.unmap_run(root, va, n).0.k == s.k,
    decreases n,
{
    reveal(MachineView::unmap_run);
    if n > 0 {
        lemma_unmap_run_frame(s, root, va, n - 1);
    }
}

proof fn lemma_checked_run_frame(s: MachineView, root: u64, va: int, pa: int, flags: u64, n: int)
    ensures
        s.checked_run(root, va, pa, flags, n).0.k == (Kernel {
            mem: s.checked_run(root, va, pa, flags, n).0.k.mem,
            ..s.k
        }),
    decreases n,
{
    if n > 0 {
        lemma_checked_run_frame(s, root, va, pa, flags, n - 1);
        let before = s.checked_run(root, va, pa, flags, n - 1).0;
        if let Some(i) = mmu::table_of(before.tables, root, 0) {
            lemma_build_frame(before, i, va + (n - 1) * 4096);
        }
    }
}

/// Mapping touches tables, free pages and operations, nothing else.
pub(crate) proof fn lemma_map_checked_frame(
    s: MachineView,
    root: u64,
    va: int,
    pa: int,
    flags: u64,
    count: int,
)
    ensures
        s.map_checked(root, va, pa, flags, count).0.k == (Kernel {
            mem: s.map_checked(root, va, pa, flags, count).0.k.mem,
            ..s.k
        }),
{
    reveal(MachineView::map_checked);
    lemma_checked_run_frame(s, root, va, pa, flags, count);
    let (b, mapped, error) = s.checked_run(root, va, pa, flags, count);
    lemma_unmap_run_frame(b, root, va, mapped);
}

/// Takes a mapping of `owner` away. The pages are cleared only if all of them still map what
/// the mapping put there.
pub fn unmap_handle(m: &mut Machine, owner: u32, mapping_handle_value: u64) -> (r: u64)
    requires
        old(m)@.wf(),
    ensures
        (final(m)@, r) == old(m)@.unmap_handle(owner, mapping_handle_value),
        final(m)@.wf(),
{
    let found: (usize, u32) = match decode_handle(mapping_handle_value, MAX_FRAME_MAPPINGS) {
        None => {
            return abi::SYS_ERR_INVALID;
        },
        Some(found) => found,
    };
    let slot: usize = found.0;
    let entry: MappingEntry = m.k.spaces.mappings[slot];
    assert(m.k.spaces.mappings@[slot as int].wf());
    if entry.owner != owner || entry.generation != found.1 {
        return abi::SYS_ERR_NOT_FOUND;
    }
    let expected_pa: u64 = entry.frame_pa + entry.offset_pages * 4096;
    if !mmu::unmap_matching(m, entry.target_root, entry.va, expected_pa, entry.pages) {
        return abi::SYS_ERR_CONFLICT;
    }
    proof {
        lemma_unmap_run_frame(
            old(m)@,
            entry.target_root,
            entry.va as int,
            entry.pages as int,
        );
    }
    mmu::flush_el1_tlb_range(m, entry.va, entry.pages);
    if frame::remove_mapping(&mut m.k.frames, owner, entry.frame_handle).is_err() {
        return abi::SYS_ERR_INVALID;
    }
    remove_mapping(&mut m.k.spaces, entry.target_vspace);
    m.k.spaces.mappings[slot] = MappingEntry {
        owner: 0,
        generation: next_generation(entry.generation),
        frame_handle: 0,
        frame_pa: 0,
        target_vspace: 0,
        target_root: 0,
        offset_pages: 0,
        pages: 0,
        va: 0,
        rights: 0,
    };
    0
}

/// What an entry becomes when the mappings of `owner` go.
pub open spec fn drop_mapping(owner: u32) -> spec_fn(MappingEntry) -> MappingEntry {
    |e: MappingEntry|
        if e.owner == owner {
            MappingEntry::empty(crate::handle::generation_after(e.generation))
        } else {
            e
        }
}

/// The mappings of `owner` in the first `k` entries, in order.
pub open spec fn mappings_of(mappings: [MappingEntry; 128], owner: u32, k: int) -> Seq<MappingEntry>
    decreases k,
{
    if k <= 0 {
        Seq::empty()
    } else if mappings@[k - 1].owner == owner {
        mappings_of(mappings, owner, k - 1).push(mappings@[k - 1])
    } else {
        mappings_of(mappings, owner, k - 1)
    }
}

impl MachineView {
    /// The first `k` of the given mappings are taken out of their tables and counts.
    pub open spec fn undo_mappings(self, owner: u32, taken: Seq<MappingEntry>, k: int) -> MachineView
        decreases k,
    {
        if k <= 0 {
            self
        } else {
            let entry = taken[k - 1];
            self.undo_mappings(owner, taken, k - 1).unmap_run(
                entry.target_root,
                entry.va as int,
                entry.pages as int,
            ).0.uncount_mapping(owner, entry.target_vspace, entry.frame_handle)
        }
    }

    /// Every mapping of `owner` goes, each from the table that it was made in.
    pub open spec fn vspace_cleanup(self, owner: u32) -> MachineView {
        if owner == 0 {
            self
        } else {
            let taken = mappings_of(self.k.spaces.mappings, owner, 128);
            self.with_spaces(
                VSpaces {
                    mappings: crate::util::mapped(
                        self.k.spaces.mappings,
                        drop_mapping(owner),
                        128,
                    ),
                    ..self.k.spaces
                },
            ).undo_mappings(owner, taken, taken.len() as int)
        }
    }
}

/// Takes every mapping of `owner` away.
pub fn cleanup_owner(m: &mut Machine, owner: u32)
    requires
        old(m)@.wf(),
    ensures
        final(m)@ == old(m)@.vspace_cleanup(owner),
        final(m)@.wf(),
{
    if owner == 0 {
        return;
    }
    let mut removed: Vec<MappingEntry> = Vec::new();
    let ghost mappings = m.k.spaces.mappings;
    let mut slot: usize = 0;
    while slot < MAX_FRAME_MAPPINGS
        invariant
            slot <= 128,
            mappings == old(m)@.k.spaces.mappings,
            m@.wf(),
            m@ == old(m)@.with_spaces(
                VSpaces {
                    mappings: crate::util::mapped(mappings, drop_mapping(owner), slot as int),
                    ..old(m)@.k.spaces
                },
            ),
            removed@ == mappings_of(mappings, owner, slot as int),
            forall|i: int| 0 <= i < removed@.len() ==> (#[trigger] removed@[i]).wf(),
        decreases 128 - slot,
    {
        proof {
            crate::util::lemma_mapped(mappings, drop_mapping(owner), slot as int);
            assert(m.k.spaces.mappings@[slot as int] == mappings@[slot as int]);
            assert(m.k.spaces.mappings@[slot as int].wf());
        }
        let entry: MappingEntry = m.k.spaces.mappings[slot];
        if entry.owner == owner {
            removed.push(entry);
            m.k.spaces.mappings[slot] = MappingEntry {
                owner: 0,
                generation: next_generation(entry.generation),
                frame_handle: 0,
                frame_pa: 0,
                target_vspace: 0,
                target_root: 0,
                offset_pages: 0,
                pages: 0,
                va: 0,
                rights: 0,
            };
        }
        slot = slot + 1;
        assert(m.k.spaces.mappings =~= crate::util::mapped(
            mappings,
            drop_mapping(owner),
            slot as int,
        ));
    }
    let ghost emptied = m@;
    let mut i: usize = 0;
    while i < removed.len()
        invariant
            i <= removed@.len(),
            m@.wf(),
            forall|i: int| 0 <= i < removed@.len() ==> (#[trigger] removed@[i]).wf(),
            m@ == emptied.undo_mappings(owner, removed@, i as int),
        decreases removed@.len() - i,
    {
        let entry: MappingEntry = removed[i];
        let ghost before = m@;
        assert(removed@[i as int].wf());
        mmu::unmap(m, entry.target_root, entry.va, entry.pages);
        proof {
            lemma_unmap_run_frame(before, entry.target_root, entry.va as int, entry.pages as int);
        }
        let _ = frame::remove_mapping(&mut m.k.frames, owner, entry.frame_handle);
        remove_mapping(&mut m.k.spaces, entry.target_vspace);
        i = i + 1;
    }
}

/// No frame is mapped writable in one place and executable in another.
pub open spec fn write_xor_execute(spaces: VSpaces) -> bool {
    forall|i: int, j: int|
        0 <= i < 128 && 0 <= j < 128 && (#[trigger] spaces.mappings@[i]).owner != 0 && (
        #[trigger] spaces.mappings@[j]).owner != 0 && spaces.mappings@[i].frame_handle
            == spaces.mappings@[j].frame_handle ==> !(writes(spaces.mappings@[i].rights)
            && executes(spaces.mappings@[j].rights))
}

proof fn lemma_free_mapping(spaces: VSpaces, from: int)
    requires
        0 <= from,
    ensures
        match spaces.free_mapping(from) {
            Some(i) => from <= i < 128 && spaces.mappings@[i].owner == 0,
            None => forall|i: int| from <= i < 128 ==> spaces.mappings@[i].owner != 0,
        },
    decreases 128 - from,
{
    if from < 128 && spaces.mappings@[from].owner != 0 {
        lemma_free_mapping(spaces, from + 1);
    }
}

/// Mapping frames never makes a frame writable and executable at once, in any combination of
/// address spaces.
pub proof fn law_map_frame_keeps_wx(
    s: MachineView,
    owner: u32,
    vspace: u64,
    frame_handle: u64,
    offset_pages: u64,
    pages: u64,
    va: u64,
    rights: u64,
    arena_only: bool,
)
    requires
        write_xor_execute(s.k.spaces),
    ensures
        write_xor_execute(
            s.map_frame(
                owner,
                vspace,
                frame_handle,
                offset_pages,
                pages,
                va,
                rights,
                arena_only,
            ).0.k.spaces,
        ),
{
    let n = s.map_frame(
        owner,
        vspace,
        frame_handle,
        offset_pages,
        pages,
        va,
        rights,
        arena_only,
    ).0;
    lemma_free_mapping(s.k.spaces, 0);
    lemma_map_frame_mappings(
        s,
        owner,
        vspace,
        frame_handle,
        offset_pages,
        pages,
        va,
        rights,
        arena_only,
    );
    if n.k.spaces.mappings != s.k.spaces.mappings {
        let slot = s.k.spaces.free_mapping(0)->0;
        assert(1u64 & 2 == 0 && 1u64 & 4 == 0 && 3u64 & 4 == 0 && 5u64 & 2 == 0) by (bit_vector);
        assert forall|i: int, j: int|
            0 <= i < 128 && 0 <= j < 128 && (#[trigger] n.k.spaces.mappings@[i]).owner != 0 && (
            #[trigger] n.k.spaces.mappings@[j]).owner != 0 && n.k.spaces.mappings@[i].frame_handle
                == n.k.spaces.mappings@[j].frame_handle implies !(writes(
            n.k.spaces.mappings@[i].rights,
        ) && executes(n.k.spaces.mappings@[j].rights)) by {
            assert(i == slot || n.k.spaces.mappings@[i] == s.k.spaces.mappings@[i]);
            assert(j == slot || n.k.spaces.mappings@[j] == s.k.spaces.mappings@[j]);
        }
    }
}

/// What mapping a frame can do to the table of mappings: nothing, or fill the first free entry
/// with rights that no other mapping of the frame forbids.
proof fn lemma_map_frame_mappings(
    s: MachineView,
    owner: u32,
    vspace: u64,
    frame_handle: u64,
    offset_pages: u64,
    pages: u64,
    va: u64,
    rights: u64,
    arena_only: bool,
)
    ensures
        ({
            let (n, r) = s.map_frame(
                owner,
                vspace,
                frame_handle,
                offset_pages,
                pages,
                va,
                rights,
                arena_only,
            );
            n.k.spaces.mappings != s.k.spaces.mappings ==> {
                &&& s.k.spaces.free_mapping(0) is Some
                &&& !s.k.spaces.forbids(frame_handle, rights)
                &&& flags_for(rights) is Some
                &&& exists|e: MappingEntry|
                    #![trigger s.k.spaces.mappings.upd(s.k.spaces.free_mapping(0)->0, e)]
                    n.k.spaces.mappings == s.k.spaces.mappings.upd(
                        s.k.spaces.free_mapping(0)->0,
                        e,
                    ) && e.rights == rights && e.frame_handle == frame_handle && e.owner == owner
            }
        }),
{
    let window = if arena_only {
        in_frame_arena(va, pages) || in_heap_window(va, pages)
    } else {
        in_process_window(va, pages)
    };
    if owner != 0 && window && flags_for(rights) is Some {
        if let Ok(frame_slot) = frame::entry_of(s.k.frames, owner, frame_handle) {
            if let Ok(space) = s.k.spaces.find_for(owner, vspace) {
                let entry = s.k.frames@[frame_slot];
                let pa = (entry.pa + offset_pages * 4096) as u64;
                let t = if executes(rights) {
                    s.op(HwOp::SyncForExec { pa, pages })
                } else {
                    s
                };
                let counted = t.with_frames(
                    frame::mapping_counted(t.k.frames, frame_slot, 1),
                ).with_spaces(t.k.spaces.mapping_added(space));
                lemma_map_checked_frame(
                    counted,
                    s.k.spaces.spaces@[space].root_pa,
                    va as int,
                    pa as int,
                    flags_for(rights)->0,
                    pages as int,
                );
            }
        }
    }
}

/// Taking mappings away never breaks the exclusion of writing and executing.
pub proof fn law_unmap_keeps_wx(s: MachineView, owner: u32, handle: u64)
    requires
        write_xor_execute(s.k.spaces),
    ensures
        write_xor_execute(s.unmap_handle(owner, handle).0.k.spaces),
{
    let n = s.unmap_handle(owner, handle).0;
    if let Some(found) = crate::handle::decoded(handle, 128) {
        let entry = s.k.spaces.mappings@[found.0];
        lemma_unmap_run_frame(s, entry.target_root, entry.va as int, entry.pages as int);
        assert forall|i: int| 0 <= i < 128 implies (#[trigger] n.k.spaces.mappings@[i])
            == s.k.spaces.mappings@[i] || n.k.spaces.mappings@[i].owner == 0 by {
        }
    }
}

/// Number of the first `k` mappings that map the frame named by `handle`.
pub open spec fn mappings_to(mappings: [MappingEntry; 128], handle: u64, k: int) -> int
    decreases k,
{
    if k <= 0 {
        0
    } else if mappings@[k - 1].owner != 0 && mappings@[k - 1].frame_handle == handle {
        mappings_to(mappings, handle, k - 1) + 1
    } else {
        mappings_to(mappings, handle, k - 1)
    }
}

/// Every frame counts exactly the mappings that exist of it, and every mapping names a frame of
/// its own owner.
pub open spec fn mappings_counted(k: Kernel) -> bool {
    &&& forall|i: int|
        0 <= i < 64 && (#[trigger] k.frames@[i]).owner != 0 ==> k.frames@[i].mapping_count
            == mappings_to(
            k.spaces.mappings,
            crate::handle::handle_of(i, k.frames@[i].generation) as u64,
            128,
        )
    &&& forall|j: int|
        0 <= j < 128 && (#[trigger] k.spaces.mappings@[j]).owner != 0 ==> frame::entry_of(
            k.frames,
            k.spaces.mappings@[j].owner,
            k.spaces.mappings@[j].frame_handle,
        ) is Ok
}

pub(crate) proof fn lemma_mappings_to(mappings: [MappingEntry; 128], handle: u64, k: int)
    requires
        0 <= k <= 128,
    ensures
        0 <= mappings_to(mappings, handle, k) <= k,
        mappings_to(mappings, handle, k) == 0 <==> forall|j: int|
            0 <= j < k ==> !((#[trigger] mappings@[j]).owner != 0 && mappings@[j].frame_handle
                == handle),
    decreases k,
{
    if k > 0 {
        lemma_mappings_to(mappings, handle, k - 1);
        if mappings_to(mappings, handle, k) == 0 {
            assert forall|j: int| 0 <= j < k implies !((#[trigger] mappings@[j]).owner != 0
                && mappings@[j].frame_handle == handle) by {
            }
        } else if mappings_to(mappings, handle, k - 1) == 0 {
            assert(mappings@[k - 1].owner != 0 && mappings@[k - 1].frame_handle == handle);
        }
    }
}

proof fn lemma_mappings_to_update(
    mappings: [MappingEntry; 128],
    slot: int,
    entry: MappingEntry,
    handle: u64,
    k: int,
)
    requires
        0 <= slot < 128,
        0 <= k <= 128,
    ensures
        mappings_to(mappings.upd(slot, entry), handle, k) == mappings_to(mappings, handle, k) + if slot
            < k {
            (if entry.owner != 0 && entry.frame_handle == handle {
                1int
            } else {
                0
            }) - (if mappings@[slot].owner != 0 && mappings@[slot].frame_handle == handle {
                1int
            } else {
                0
            })
        } else {
            0
        },
    decreases k,
{
    if k > 0 {
        lemma_mappings_to_update(mappings, slot, entry, handle, k - 1);
    }
}

/// A frame whose mappings are counted is refused as busy exactly while a mapping of it exists,
/// so its pages never go back under a live mapping.
pub proof fn law_mapped_frame_is_busy(s: MachineView, owner: u32, handle: u64)
    requires
        s.wf(),
        owner != 0,
        mappings_counted(s.k),
        frame::entry_of(s.k.frames, owner, handle) is Ok,
    ensures
        s.frame_free(owner, handle).1 == Ok::<u64, Fault>(abi::SYS_ERR_BUSY) <==> exists|j: int|
            0 <= j < 128 && (#[trigger] s.k.spaces.mappings@[j]).owner != 0
                && s.k.spaces.mappings@[j].frame_handle == handle,
{
    let slot = frame::entry_of(s.k.frames, owner, handle)->Ok_0;
    let entry = s.k.frames@[slot];
    assert(entry.wf());
    assert(crate::handle::handle_of(slot, entry.generation) == handle);
    lemma_mappings_to(s.k.spaces.mappings, handle, 128);
}

/// A handle that resolves to `slot` is the handle of that slot's generation.
pub(crate) proof fn lemma_resolved_handle(frames: [frame::FrameEntry; 64], owner: u32, handle: u64)
    requires
        frame::entry_of(frames, owner, handle) is Ok,
    ensures
        ({
            let slot = frame::entry_of(frames, owner, handle)->Ok_0;
            &&& 0 <= slot < 64
            &&& frames@[slot].owner == owner
            &&& handle == crate::handle::handle_of(slot, frames@[slot].generation)
        }),
{
}

/// The counts hold when frames keep owner and generation, and each count moved with the mappings.
proof fn lemma_counts_move(k: Kernel, n: Kernel, slot: int, change: int, place: int, e: MappingEntry)
    requires
        mappings_counted(k),
        0 <= slot < 64,
        0 <= place < 128,
        n.spaces.mappings == k.spaces.mappings.upd(place, e),
        n.frames == frame::mapping_counted(k.frames, slot, change),
        k.frames@[slot].owner != 0,
        0 <= k.frames@[slot].mapping_count + change <= u32::MAX,
        forall|i: int| 0 <= i < 64 ==> crate::handle::generation_ok((#[trigger] k.frames@[i]).generation),
        ({
            let handle = crate::handle::handle_of(slot, k.frames@[slot].generation) as u64;
            ||| change == 1 && k.spaces.mappings@[place].owner == 0 && e.owner
                == k.frames@[slot].owner && e.frame_handle == handle
            ||| change == -1 && e.owner == 0 && k.spaces.mappings@[place].owner != 0
                && k.spaces.mappings@[place].frame_handle == handle
        }),
    ensures
        mappings_counted(n),
{
    assert forall|i: int| 0 <= i < 64 && (#[trigger] n.frames@[i]).owner
        != 0 implies n.frames@[i].mapping_count == mappings_to(
        n.spaces.mappings,
        crate::handle::handle_of(i, n.frames@[i].generation) as u64,
        128,
    ) by {
        let generation = k.frames@[i].generation;
        assert(n.frames@[i].generation == generation && n.frames@[i].owner == k.frames@[i].owner);
        assert(k.frames@[i].owner != 0);
        assert(crate::handle::generation_ok(k.frames@[i].generation));
        assert(crate::handle::generation_ok(k.frames@[slot].generation));
        crate::handle::law_handle_round_trip(i, generation, 64);
        crate::handle::law_handle_round_trip(slot, k.frames@[slot].generation, 64);
        lemma_mappings_to_update(
            k.spaces.mappings,
            place,
            e,
            crate::handle::handle_of(i, generation) as u64,
            128,
        );
        if i != slot {
            if crate::handle::handle_of(i, generation) == crate::handle::handle_of(
                slot,
                k.frames@[slot].generation,
            ) {
                crate::handle::law_handle_injective(
                    i,
                    generation,
                    slot,
                    k.frames@[slot].generation,
                );
            }
        }
    }
    assert forall|j: int| 0 <= j < 128 && (#[trigger] n.spaces.mappings@[j]).owner
        != 0 implies frame::entry_of(
        n.frames,
        n.spaces.mappings@[j].owner,
        n.spaces.mappings@[j].frame_handle,
    ) is Ok by {
        if j != place {
            assert(n.spaces.mappings@[j] == k.spaces.mappings@[j]);
            assert(frame::entry_of(
                k.frames,
                k.spaces.mappings@[j].owner,
                k.spaces.mappings@[j].frame_handle,
            ) is Ok);
        } else {
            assert(crate::handle::generation_ok(k.frames@[slot].generation));
            crate::handle::law_handle_round_trip(slot, k.frames@[slot].generation, 64);
        }
    }
}

/// Mapping a frame keeps the counts exact, whether it succeeds or fails.
pub proof fn law_map_frame_keeps_counts(
    s: MachineView,
    owner: u32,
    vspace: u64,
    frame_handle: u64,
    offset_pages: u64,
    pages: u64,
    va: u64,
    rights: u64,
    arena_only: bool,
)
    requires
        s.wf(),
        mappings_counted(s.k),
    ensures
        mappings_counted(
            s.map_frame(
                owner,
                vspace,
                frame_handle,
                offset_pages,
                pages,
                va,
                rights,
                arena_only,
            ).0.k,
        ),
{
    let (n, r) = s.map_frame(
        owner,
        vspace,
        frame_handle,
        offset_pages,
        pages,
        va,
        rights,
        arena_only,
    );
    let window = if arena_only {
        in_frame_arena(va, pages) || in_heap_window(va, pages)
    } else {
        in_process_window(va, pages)
    };
    if owner != 0 && window && flags_for(rights) is Some {
        if let Ok(frame_slot) = frame::entry_of(s.k.frames, owner, frame_handle) {
            if let Ok(space) = s.k.spaces.find_for(owner, vspace) {
                lemma_resolved_handle(s.k.frames, owner, frame_handle);
                let entry = s.k.frames@[frame_slot];
                let pa = (entry.pa + offset_pages * 4096) as u64;
                let t = if executes(rights) {
                    s.op(HwOp::SyncForExec { pa, pages })
                } else {
                    s
                };
                let counted = t.with_frames(
                    frame::mapping_counted(t.k.frames, frame_slot, 1),
                ).with_spaces(t.k.spaces.mapping_added(space));
                let root = s.k.spaces.spaces@[space].root_pa;
                let flags = flags_for(rights)->0;
                lemma_map_checked_frame(
                    counted,
                    root,
                    va as int,
                    pa as int,
                    flags,
                    pages as int,
                );
                lemma_free_mapping(s.k.spaces, 0);
                assert forall|i: int| 0 <= i < 64 implies crate::handle::generation_ok(
                    (#[trigger] s.k.frames@[i]).generation,
                ) by {
                    assert(s.k.frames@[i].wf());
                }
                if n.k.spaces.mappings != s.k.spaces.mappings {
                    let place = s.k.spaces.free_mapping(0)->0;
                    let e = n.k.spaces.mappings@[place];
                    assert(n.k.frames == frame::mapping_counted(s.k.frames, frame_slot, 1));
                    assert(n.k.spaces.mappings =~= s.k.spaces.mappings.upd(place, e));
                    lemma_counts_move(s.k, n.k, frame_slot, 1, place, e);
                } else if !abi::sys_error(r) {
                    let place = s.k.spaces.free_mapping(0)->0;
                    assert(n.k.spaces.mappings@[place].owner == owner);
                } else {
                    assert(n.k.frames =~= s.k.frames);
                }
            }
        }
    }
}

/// Taking a mapping away keeps the counts exact.
pub proof fn law_unmap_keeps_counts(s: MachineView, owner: u32, handle: u64)
    requires
        s.wf(),
        owner != 0,
        mappings_counted(s.k),
    ensures
        mappings_counted(s.unmap_handle(owner, handle).0.k),
{
    let (n, r) = s.unmap_handle(owner, handle);
    if let Some(found) = crate::handle::decoded(handle, 128) {
        let place = found.0;
        let entry = s.k.spaces.mappings@[place];
        lemma_unmap_run_frame(s, entry.target_root, entry.va as int, entry.pages as int);
        if entry.owner == owner {
            assert(frame::entry_of(s.k.frames, owner, entry.frame_handle) is Ok);
            lemma_resolved_handle(s.k.frames, owner, entry.frame_handle);
            let slot = frame::entry_of(s.k.frames, owner, entry.frame_handle)->Ok_0;
            lemma_mappings_to(s.k.spaces.mappings, entry.frame_handle, 128);
            assert forall|i: int| 0 <= i < 64 implies crate::handle::generation_ok(
                (#[trigger] s.k.frames@[i]).generation,
            ) by {
                assert(s.k.frames@[i].wf());
            }
            assert(s.k.frames@[slot].owner != 0);
            if r == 0 {
                let e = MappingEntry::empty(crate::handle::generation_after(entry.generation));
                assert(n.k.spaces.mappings == s.k.spaces.mappings.upd(place, e));
                assert(n.k.frames == frame::mapping_counted(s.k.frames, slot, -1));
                lemma_counts_move(s.k, n.k, slot, -1, place, e);
            } else {
                assert(n.k.frames == s.k.frames);
                assert(n.k.spaces == s.k.spaces);
            }
        }
    }
}

/// Making a frame keeps the counts exact: nothing can map a frame before it exists.
pub proof fn law_allocate_keeps_counts(s: MachineView, owner: u32, pages: u64, align_pages: u64)
    requires
        s.wf(),
        mappings_counted(s.k),
    ensures
        mappings_counted(s.frame_allocate(owner, pages, align_pages).0.k),
{
    let (n, r) = s.frame_allocate(owner, pages, align_pages);
    if n.k.frames != s.k.frames {
        frame::lemma_free_entry(s.k.frames, 0);
        let slot = frame::free_entry(s.k.frames, 0)->0;
        let generation = s.k.frames@[slot].generation;
        assert(s.k.frames@[slot].wf());
        crate::handle::law_handle_round_trip(slot, generation, 64);
        let handle = crate::handle::handle_of(slot, generation) as u64;
        assert forall|j: int| 0 <= j < 128 implies !((#[trigger] s.k.spaces.mappings@[j]).owner != 0
            && s.k.spaces.mappings@[j].frame_handle == handle) by {
            if s.k.spaces.mappings@[j].owner != 0 && s.k.spaces.mappings@[j].frame_handle
                == handle {
                assert(frame::entry_of(
                    s.k.frames,
                    s.k.spaces.mappings@[j].owner,
                    s.k.spaces.mappings@[j].frame_handle,
                ) is Ok);
            }
        }
        lemma_mappings_to(s.k.spaces.mappings, handle, 128);
        assert forall|i: int| 0 <= i < 64 && (#[trigger] n.k.frames@[i]).owner
            != 0 implies n.k.frames@[i].mapping_count == mappings_to(
            n.k.spaces.mappings,
            crate::handle::handle_of(i, n.k.frames@[i].generation) as u64,
            128,
        ) by {
            if i != slot {
                assert(n.k.frames@[i] == s.k.frames@[i]);
            }
        }
        assert forall|j: int| 0 <= j < 128 && (#[trigger] n.k.spaces.mappings@[j]).owner
            != 0 implies frame::entry_of(
            n.k.frames,
            n.k.spaces.mappings@[j].owner,
            n.k.spaces.mappings@[j].frame_handle,
        ) is Ok by {
            assert(frame::entry_of(
                s.k.frames,
                s.k.spaces.mappings@[j].owner,
                s.k.spaces.mappings@[j].frame_handle,
            ) is Ok);
        }
    }
}

/// Giving a frame back keeps the counts exact.
pub proof fn law_free_keeps_counts(s: MachineView, owner: u32, handle: u64)
    requires
        s.wf(),
        mappings_counted(s.k),
    ensures
        mappings_counted(s.frame_free(owner, handle).0.k),
{
    let n = s.frame_free(owner, handle).0;
    if n.k.frames != s.k.frames {
        lemma_resolved_handle(s.k.frames, owner, handle);
        let slot = frame::entry_of(s.k.frames, owner, handle)->Ok_0;
        assert(s.k.frames@[slot].wf());
        lemma_mappings_to(s.k.spaces.mappings, handle, 128);
        assert forall|i: int| 0 <= i < 64 && (#[trigger] n.k.frames@[i]).owner
            != 0 implies n.k.frames@[i].mapping_count == mappings_to(
            n.k.spaces.mappings,
            crate::handle::handle_of(i, n.k.frames@[i].generation) as u64,
            128,
        ) by {
            assert(n.k.frames@[i] == s.k.frames@[i]);
        }
        assert forall|j: int| 0 <= j < 128 && (#[trigger] n.k.spaces.mappings@[j]).owner
            != 0 implies frame::entry_of(
            n.k.frames,
            n.k.spaces.mappings@[j].owner,
            n.k.spaces.mappings@[j].frame_handle,
        ) is Ok by {
            let o = s.k.spaces.mappings@[j].owner;
            let h = s.k.spaces.mappings@[j].frame_handle;
            assert(frame::entry_of(s.k.frames, o, h) is Ok);
            lemma_resolved_handle(s.k.frames, o, h);
        }
    }
}

/// The preset attributes for EL0 leave the address bits of a descriptor alone.
proof fn lemma_flags(rights: u64)
    requires
        flags_for(rights) is Some,
    ensures
        flags_for(rights)->0 & mmu::OUTPUT_ADDRESS_MASK == 0,
{
    assert(0x0020_0000_0000_07c0u64 & 0x0000_ffff_ffff_f000u64 == 0 && 0x0060_0000_0000_0740u64
        & 0x0000_ffff_ffff_f000u64 == 0 && 0x0060_0000_0000_07c0u64 & 0x0000_ffff_ffff_f000u64 == 0)
        by (bit_vector);
}

/// Mapping a frame is all or nothing. A refused call leaves every page, every mapping, and the
/// counts of frames and address spaces as they were. A call that succeeds maps each page of the
/// run, which lies inside the window, to its page of the frame; it changes no other page, counts
/// one mapping more in frame and address space, and from then on the frame is busy.
pub proof fn law_map_frame_all_or_nothing(
    s: MachineView,
    owner: u32,
    vspace: u64,
    frame_handle: u64,
    offset_pages: u64,
    pages: u64,
    va: u64,
    rights: u64,
    arena_only: bool,
)
    requires
        s.wf(),
    ensures
        ({
            let (n, r) = s.map_frame(
                owner,
                vspace,
                frame_handle,
                offset_pages,
                pages,
                va,
                rights,
                arena_only,
            );
            if abi::sys_error(r) {
                &&& n.k.spaces == s.k.spaces
                &&& n.k.frames == s.k.frames
                &&& forall|root: u64, a: int| (#[trigger] n.page_at(root, a)) == s.page_at(root, a)
            } else {
                let slot = frame::entry_of(s.k.frames, owner, frame_handle)->Ok_0;
                let space = s.k.spaces.find_for(owner, vspace)->Ok_0;
                let root = s.k.spaces.spaces@[space].root_pa;
                &&& frame::entry_of(s.k.frames, owner, frame_handle) is Ok
                &&& s.k.spaces.find_for(owner, vspace) is Ok
                &&& arena_only ==> in_frame_arena(va, pages) || in_heap_window(va, pages)
                &&& !arena_only ==> in_process_window(va, pages)
                &&& s.run_unmapped(root, va as int, pages as int)
                &&& n.run_maps(
                    root,
                    va as int,
                    s.k.frames@[slot].pa + offset_pages * 4096,
                    pages as int,
                )
                &&& forall|other: u64, a: int|
                    !(other == root && mmu::in_run(a, va as int, pages as int)) ==> (
                    #[trigger] n.page_at(other, a)) == s.page_at(other, a)
                &&& n.k.frames == frame::mapping_counted(s.k.frames, slot, 1)
                &&& n.k.spaces.spaces == s.k.spaces.mapping_added(space).spaces
                &&& is_mapping(n.k.spaces, owner, r, frame_handle)
                &&& n.frame_free(owner, frame_handle) == (
                    n,
                    Ok::<u64, Fault>(abi::SYS_ERR_BUSY),
                )
            }
        }),
{
    let (n, r) = s.map_frame(
        owner,
        vspace,
        frame_handle,
        offset_pages,
        pages,
        va,
        rights,
        arena_only,
    );
    let window = if arena_only {
        in_frame_arena(va, pages) || in_heap_window(va, pages)
    } else {
        in_process_window(va, pages)
    };
    if owner != 0 && window && flags_for(rights) is Some {
        if let Ok(frame_slot) = frame::entry_of(s.k.frames, owner, frame_handle) {
            if let Ok(space) = s.k.spaces.find_for(owner, vspace) {
                let entry = s.k.frames@[frame_slot];
                if offset_pages + pages <= entry.pages {
                    lemma_map_frame_whole(
                        s,
                        owner,
                        vspace,
                        space,
                        frame_handle,
                        frame_slot,
                        offset_pages,
                        pages,
                        va,
                        rights,
                    );
                }
            }
        }
    }
}

/// `mapping` is a mapping of `owner` that maps the frame named by `frame_handle`.
pub open spec fn is_mapping(spaces: VSpaces, owner: u32, mapping: u64, frame_handle: u64) -> bool {
    match crate::handle::decoded(mapping, 128) {
        None => false,
        Some((slot, generation)) => {
            &&& owner != 0
            &&& spaces.mappings@[slot].owner == owner
            &&& spaces.mappings@[slot].generation == generation
            &&& spaces.mappings@[slot].frame_handle == frame_handle
        },
    }
}

#[verifier::spinoff_prover]
#[verifier::rlimit(60)]
proof fn lemma_map_frame_whole(
    s: MachineView,
    owner: u32,
    vspace: u64,
    space: int,
    frame_handle: u64,
    frame_slot: int,
    offset_pages: u64,
    pages: u64,
    va: u64,
    rights: u64,
)
    requires
        s.wf(),
        owner != 0,
        flags_for(rights) is Some,
        frame::entry_of(s.k.frames, owner, frame_handle) == Ok::<int, u64>(frame_slot),
        s.k.spaces.find_for(owner, vspace) == Ok::<int, u64>(space),
        offset_pages + pages <= s.k.frames@[frame_slot].pages,
        pages != 0,
        va % 4096 == 0,
        va + pages * 4096 <= abi::FRAME_ARENA_END,
    ensures
        ({
            let (n, r) = s.map_frame_at(
                owner,
                vspace,
                space,
                frame_handle,
                frame_slot,
                offset_pages,
                pages,
                va,
                rights,
            );
            let root = s.k.spaces.spaces@[space].root_pa;
            if abi::sys_error(r) {
                &&& n.k.spaces == s.k.spaces
                &&& n.k.frames == s.k.frames
                &&& forall|root: u64, a: int| (#[trigger] n.page_at(root, a)) == s.page_at(root, a)
            } else {
                &&& s.run_unmapped(root, va as int, pages as int)
                &&& n.run_maps(
                    root,
                    va as int,
                    s.k.frames@[frame_slot].pa + offset_pages * 4096,
                    pages as int,
                )
                &&& forall|other: u64, a: int|
                    !(other == root && mmu::in_run(a, va as int, pages as int)) ==> (
                    #[trigger] n.page_at(other, a)) == s.page_at(other, a)
                &&& n.k.frames == frame::mapping_counted(s.k.frames, frame_slot, 1)
                &&& n.k.spaces.spaces == s.k.spaces.mapping_added(space).spaces
                &&& is_mapping(n.k.spaces, owner, r, frame_handle)
                &&& n.frame_free(owner, frame_handle) == (
                    n,
                    Ok::<u64, Fault>(abi::SYS_ERR_BUSY),
                )
            }
        }),
{
    let (n, r) = s.map_frame_at(
        owner,
        vspace,
        space,
        frame_handle,
        frame_slot,
        offset_pages,
        pages,
        va,
        rights,
    );
    let entry = s.k.frames@[frame_slot];
    let root = s.k.spaces.spaces@[space].root_pa;
    let flags = flags_for(rights)->0;
    lemma_resolved_handle(s.k.frames, owner, frame_handle);
    lemma_free_mapping(s.k.spaces, 0);
    assert(entry.wf());
    if !s.k.spaces.forbids(frame_handle, rights) && s.k.spaces.free_mapping(0) is Some
        && entry.mapping_count != u32::MAX && s.k.spaces.spaces@[space].mapping_count
        != u16::MAX {
        let place = s.k.spaces.free_mapping(0)->0;
        let pa = (entry.pa + offset_pages * 4096) as u64;
        let t = if executes(rights) {
            s.op(HwOp::SyncForExec { pa, pages })
        } else {
            s
        };
        let counted = t.with_frames(
            frame::mapping_counted(t.k.frames, frame_slot, 1),
        ).with_spaces(t.k.spaces.mapping_added(space));
        assert(forall|other: u64, a: int| (#[trigger] counted.page_at(other, a)) == s.page_at(other, a));
        lemma_map_checked_frame(counted, root, va as int, pa as int, flags, pages as int);
        mmu::law_map_checked(counted, root, va as int, pa as int, flags, pages as int);
        let (m, error) = counted.map_checked(root, va as int, pa as int, flags, pages as int);
        assert(s.k.spaces.mappings@[place].wf());
        let generation = s.k.spaces.mappings@[place].generation;
        crate::handle::law_handle_is_no_error(place, generation);
        crate::handle::law_handle_round_trip(place, generation, 128);
        if error is Some {
            assert(n.k.frames =~= s.k.frames);
            assert(n.k.spaces.spaces =~= s.k.spaces.spaces);
            assert forall|other: u64, a: int| (#[trigger] n.page_at(other, a)) == s.page_at(
                other,
                a,
            ) by {
                assert(n.page_at(other, a) == m.page_at(other, a));
                assert(counted.page_at(other, a) == s.page_at(other, a));
            }
        } else {
            lemma_flags(rights);
            assert forall|other: u64, a: int| (#[trigger] n.page_at(other, a)) == m.page_at(
                other,
                a,
            ) by {}
            assert forall|j: int| 0 <= j < pages implies match (#[trigger] n.page_at(
                root,
                va + j * 4096,
            )) {
                Some(word) => word & mmu::OUTPUT_ADDRESS_MASK == entry.pa + offset_pages * 4096 + j
                    * 4096,
                None => false,
            } by {
                assert(m.page_at(root, mmu::page_va(va as int, j)) is Some);
                mmu::law_descriptor_keeps_address((pa + j * 4096) as u64, flags);
            }
            assert forall|j: int| 0 <= j < pages implies (#[trigger] s.page_at(
                root,
                va + j * 4096,
            )) is None by {
                assert(counted.page_at(root, va + j * 4096) is None);
            }
            assert forall|other: u64, a: int|
                !(other == root && mmu::in_run(a, va as int, pages as int)) implies (
            #[trigger] n.page_at(other, a)) == s.page_at(other, a) by {
                assert(m.page_at(other, a) == counted.page_at(other, a));
            }
            assert(n.k.frames@[frame_slot].mapping_count == entry.mapping_count + 1);
        }
    }
}

/// A mapping lasts until it is taken away by its own handle: mapping other frames, making and
/// freeing frames, and taking other mappings away leave it in place. As long as it lasts the
/// frame that it maps is busy. When it was taken away and no other mapping of the frame is left,
/// the frame is busy no longer.
pub proof fn law_busy_until_unmapped(
    s: MachineView,
    owner: u32,
    mapping: u64,
    frame_handle: u64,
    other: u32,
    handle: u64,
    vspace: u64,
    offset_pages: u64,
    pages: u64,
    align_pages: u64,
    va: u64,
    rights: u64,
    arena_only: bool,
)
    requires
        s.wf(),
        mappings_counted(s.k),
        is_mapping(s.k.spaces, owner, mapping, frame_handle),
    ensures
        s.frame_free(owner, frame_handle) == (s, Ok::<u64, Fault>(abi::SYS_ERR_BUSY)),
        is_mapping(
            s.map_frame(
                other,
                vspace,
                handle,
                offset_pages,
                pages,
                va,
                rights,
                arena_only,
            ).0.k.spaces,
            owner,
            mapping,
            frame_handle,
        ),
        is_mapping(
            s.frame_allocate(other, pages, align_pages).0.k.spaces,
            owner,
            mapping,
            frame_handle,
        ),
        is_mapping(s.frame_free(other, handle).0.k.spaces, owner, mapping, frame_handle),
        handle != mapping ==> is_mapping(
            s.unmap_handle(other, handle).0.k.spaces,
            owner,
            mapping,
            frame_handle,
        ),
        s.unmap_handle(owner, mapping).1 == 0 ==> ({
            let n = s.unmap_handle(owner, mapping).0;
            &&& !is_mapping(n.k.spaces, owner, mapping, frame_handle)
            &&& n.frame_free(owner, frame_handle).1 == Ok::<u64, Fault>(abi::SYS_ERR_BUSY)
                <==> exists|j: int|
                0 <= j < 128 && (#[trigger] n.k.spaces.mappings@[j]).owner != 0
                    && n.k.spaces.mappings@[j].frame_handle == frame_handle
        }),
{
    let (slot, generation) = crate::handle::decoded(mapping, 128)->0;
    assert(s.k.spaces.mappings@[slot].owner != 0);
    assert(frame::entry_of(s.k.frames, owner, frame_handle) is Ok);
    law_mapped_frame_is_busy(s, owner, frame_handle);
    lemma_free_mapping(s.k.spaces, 0);
    lemma_map_frame_mappings(
        s,
        other,
        vspace,
        handle,
        offset_pages,
        pages,
        va,
        rights,
        arena_only,
    );
    if let Some(found) = crate::handle::decoded(handle, 128) {
        let entry = s.k.spaces.mappings@[found.0];
        lemma_unmap_run_frame(s, entry.target_root, entry.va as int, entry.pages as int);
    }
    if s.unmap_handle(owner, mapping).1 == 0 {
        let n = s.unmap_handle(owner, mapping).0;
        let entry = s.k.spaces.mappings@[slot];
        lemma_unmap_run_frame(s, entry.target_root, entry.va as int, entry.pages as int);
        assert(entry.wf());
        crate::handle::law_generation_moves(entry.generation);
        law_unmap_keeps_counts(s, owner, mapping);
        lemma_resolved_handle(s.k.frames, owner, frame_handle);
        let place = frame::entry_of(s.k.frames, owner, frame_handle)->Ok_0;
        assert(s.k.frames@[place].wf());
        assert(frame::entry_of(n.k.frames, owner, frame_handle) is Ok);
        lemma_mappings_to(n.k.spaces.mappings, frame_handle, 128);
    }
}

} // verus!
