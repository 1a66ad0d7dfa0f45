//! Frames: runs of ordinary physical memory that a task owns through a handle.
use crate::abi;
use crate::handle::{decode_handle, make_handle, next_generation};
use crate::hw::HwOp;
use crate::machine::{Fault, Kernel, Machine, MachineView};
use crate::memory::physical::{self, PhysicalMemory};
use crate::util::{is_power_of_two, ArrayUpdate};
use vstd::prelude::*;

verus! {

pub const MAX_FRAMES: usize = 64;

pub const MAX_FRAME_PAGES: u64 = 4096;

pub const MAX_ALIGNMENT_PAGES: u64 = 512;

#[derive(Clone, Copy, Debug, PartialEq, Eq, Structural)]
pub struct FrameEntry {
    /// Zero for an unused entry.
    pub owner: u32,
    pub generation: u32,
    pub pa: u64,
    pub pages: u64,
    pub mapping_count: u32,
}

impl FrameEntry {
    pub open spec fn wf(self) -> bool {
        &&& crate::handle::generation_ok(self.generation)
        &&& self.pages <= 4096
        &&& PhysicalMemory::returnable(self.pa, self.pages)
    }
}

pub open spec fn frames_ok(frames: [FrameEntry; 64]) -> bool {
    forall|i: int| 0 <= i < 64 ==> (#[trigger] frames@[i]).wf()
}

impl FrameEntry {
    pub open spec fn empty(generation: u32) -> FrameEntry {
        FrameEntry { owner: 0, generation, pa: 0, pages: 0, mapping_count: 0 }
    }
}

/// The first unused entry at place `from` or later.
pub open spec fn free_entry(frames: [FrameEntry; 64], from: int) -> Option<int>
    decreases 64 - from,
{
    if from < 0 || from >= 64 {
        None
    } else if frames@[from].owner == 0 {
        Some(from)
    } else {
        free_entry(frames, from + 1)
    }
}

/// The frame of `owner` that `handle` names, whoever `owner` is.
pub open spec fn entry_of(frames: [FrameEntry; 64], owner: u32, handle: u64) -> Result<int, u64> {
    match crate::handle::decoded(handle, 64) {
        None => Err(abi::SYS_ERR_INVALID),
        Some(found) => if frames@[found.0].owner != owner || frames@[found.0].generation
            != found.1 {
            Err(abi::SYS_ERR_NOT_FOUND)
        } else {
            Ok(found.0)
        },
    }
}

/// The request for a frame is acceptable.
pub open spec fn request_ok(owner: u32, pages: u64, align_pages: u64) -> bool {
    &&& owner != 0
    &&& 1 <= pages <= 4096
    &&& 1 <= align_pages <= 512
    &&& crate::util::power_of_two(align_pages as int)
}

impl MachineView {
    /// A frame of zeroed pages is made for `owner`.
    pub open spec fn frame_allocate(self, owner: u32, pages: u64, align_pages: u64) -> (
        MachineView,
        u64,
    ) {
        if !request_ok(owner, pages, align_pages) {
            (self, abi::SYS_ERR_INVALID)
        } else {
            match free_entry(self.k.frames, 0) {
                None => (self, abi::SYS_ERR_NO_SLOT),
                Some(slot) => {
                    let (mem, run) = self.k.mem.aligned_alloc(pages, align_pages);
                    let s = self.with_mem(mem);
                    match run {
                        None => (s, abi::SYS_ERR_NO_MEMORY),
                        Some(pa) => {
                            let generation = self.k.frames@[slot].generation;
                            (
                                s.op(
                                    HwOp::Zero { pa, bytes: (pages * 4096) as u64 },
                                ).with_frames(
                                    self.k.frames.upd(
                                        slot,
                                        FrameEntry {
                                            owner,
                                            generation,
                                            pa,
                                            pages,
                                            mapping_count: 0,
                                        },
                                    ),
                                ),
                                crate::handle::handle_of(slot, generation) as u64,
                            )
                        },
                    }
                },
            }
        }
    }

    /// A frame that is mapped nowhere goes back, and its handle becomes stale.
    pub open spec fn frame_free(self, owner: u32, handle: u64) -> (MachineView, Result<u64, Fault>) {
        if owner == 0 {
            (self, Ok(abi::SYS_ERR_NOT_FOUND))
        } else {
            match entry_of(self.k.frames, owner, handle) {
                Err(error) => (self, Ok(error)),
                Ok(slot) => {
                    let entry = self.k.frames@[slot];
                    if entry.mapping_count != 0 {
                        (self, Ok(abi::SYS_ERR_BUSY))
                    } else {
                        let s = self.with_frames(
                            self.k.frames.upd(
                                slot,
                                FrameEntry::empty(
                                    crate::handle::generation_after(entry.generation),
                                ),
                            ),
                        );
                        if entry.pages != 0 && self.k.mem.count >= 64 {
                            (s, Err(Fault::RangeTableFull))
                        } else {
                            (s.with_mem(self.k.mem.freed(entry.pa, entry.pages)), Ok(0))
                        }
                    }
                },
            }
        }
    }
}

pub fn empty_frames() -> (r: [FrameEntry; 64])
    ensures
        frames_ok(r),
        forall|i: int| 0 <= i < 64 ==> r@[i] == FrameEntry::empty(1),
{
    [FrameEntry { owner: 0, generation: 1, pa: 0, pages: 0, mapping_count: 0 }; 64]
}

/// Makes a frame of `pages` contiguous zeroed pages, aligned to `align_pages` pages.
pub fn allocate(m: &mut Machine, owner: u32, pages: u64, align_pages: u64) -> (r: u64)
    requires
        old(m)@.wf(),
    ensures
        (final(m)@, r) == old(m)@.frame_allocate(owner, pages, align_pages),
        final(m)@.wf(),
{
    if owner == 0 || pages == 0 || pages > MAX_FRAME_PAGES || align_pages == 0 || align_pages
        > MAX_ALIGNMENT_PAGES || !is_power_of_two(align_pages) {
        return abi::SYS_ERR_INVALID;
    }
    let mut slot: usize = 0;
    while slot < MAX_FRAMES && m.k.frames[slot].owner != 0
        invariant
            slot <= 64,
            *m == *old(m),
            free_entry(m.k.frames, 0) == free_entry(m.k.frames, slot as int),
        decreases 64 - slot,
    {
        slot = slot + 1;
    }
    if slot == MAX_FRAMES {
        return abi::SYS_ERR_NO_SLOT;
    }
    assert(m.k.frames@[slot as int].wf());
    let generation: u32 = m.k.frames[slot].generation;
    let pa: u64 = match physical::alloc_pages_aligned(&mut m.k.mem, pages, align_pages) {
        None => {
            return abi::SYS_ERR_NO_MEMORY;
        },
        Some(pa) => pa,
    };
    m.ops.push(HwOp::Zero { pa, bytes: pages * 4096 });
    m.k.frames[slot] = FrameEntry { owner, generation, pa, pages, mapping_count: 0 };
    make_handle(slot, generation)
}

/// Gives a frame back. Busy while any mapping of it exists.
pub fn free(m: &mut Machine, owner: u32, handle: u64) -> (r: Result<u64, Fault>)
    requires
        old(m)@.wf(),
    ensures
        (final(m)@, r) == old(m)@.frame_free(owner, handle),
        final(m)@.wf(),
{
    if owner == 0 {
        return Ok(abi::SYS_ERR_NOT_FOUND);
    }
    let found: (usize, u32) = match decode_handle(handle, MAX_FRAMES) {
        None => {
            return Ok(abi::SYS_ERR_INVALID);
        },
        Some(found) => found,
    };
    let slot: usize = found.0;
    let entry: FrameEntry = m.k.frames[slot];
    assert(m.k.frames@[slot as int].wf());
    if entry.owner != owner || entry.generation != found.1 {
        return Ok(abi::SYS_ERR_NOT_FOUND);
    }
    if entry.mapping_count != 0 {
        return Ok(abi::SYS_ERR_BUSY);
    }
    m.k.frames[slot] = FrameEntry {
        owner: 0,
        generation: next_generation(entry.generation),
        pa: 0,
        pages: 0,
        mapping_count: 0,
    };
    match physical::free_pages(&mut m.k.mem, entry.pa, entry.pages) {
        Ok(()) => Ok(0),
        Err(_) => Err(Fault::RangeTableFull),
    }
}

/// The slot, address and page count of a frame of `owner`.
pub fn resolve(frames: &[FrameEntry; 64], owner: u32, handle: u64) -> (r: Result<
    (usize, u64, u64),
    u64,
>)
    ensures
        match (r, entry_of(*frames, owner, handle)) {
            (Ok(found), Ok(slot)) => owner != 0 && found == (
                slot as usize,
                frames@[slot].pa,
                frames@[slot].pages,
            ) && 0 <= slot < 64,
            (Err(error), Err(expected)) => error == expected,
            (Err(error), Ok(slot)) => owner == 0 && error == abi::SYS_ERR_NOT_FOUND,
            _ => false,
        },
{
    match decode_handle(handle, MAX_FRAMES) {
        None => Err(abi::SYS_ERR_INVALID),
        Some(found) => {
            let entry: FrameEntry = frames[found.0];
            if entry.owner == 0 || entry.owner != owner || entry.generation != found.1 {
                return Err(abi::SYS_ERR_NOT_FOUND);
            }
            Ok((found.0, entry.pa, entry.pages))
        },
    }
}

/// Counts one more mapping of a frame.
pub fn add_mapping(frames: &mut [FrameEntry; 64], owner: u32, handle: u64) -> (r: Result<(), u64>)
    requires
        frames_ok(*old(frames)),
    ensures
        match entry_of(*old(frames), owner, handle) {
            Err(error) => r == Err::<(), u64>(error) && *final(frames) == *old(frames),
            Ok(slot) => if old(frames)@[slot].mapping_count == u32::MAX {
                r == Err::<(), u64>(abi::SYS_ERR_BUSY) && *final(frames) == *old(frames)
            } else {
                r is Ok && *final(frames) == mapping_counted(*old(frames), slot, 1)
            },
        },
        frames_ok(*final(frames)),
{
    match decode_handle(handle, MAX_FRAMES) {
        None => Err(abi::SYS_ERR_INVALID),
        Some(found) => {
            let slot: usize = found.0;
            let entry: FrameEntry = frames[slot];
            assert(frames@[slot as int].wf());
            if entry.owner != owner || entry.generation != found.1 {
                return Err(abi::SYS_ERR_NOT_FOUND);
            }
            match entry.mapping_count.checked_add(1) {
                None => Err(abi::SYS_ERR_BUSY),
                Some(count) => {
                    frames[slot].mapping_count = count;
                    Ok(())
                },
            }
        },
    }
}

/// The table with `change` more mappings counted in entry `slot`.
pub open spec fn mapping_counted(frames: [FrameEntry; 64], slot: int, change: int) -> [FrameEntry;
    64] {
    frames.upd(
        slot,
        FrameEntry {
            mapping_count: (frames@[slot].mapping_count + change) as u32,
            ..frames@[slot]
        },
    )
}

/// What counting one mapping less does, and what it returns.
pub open spec fn mapping_removed(frames: [FrameEntry; 64], owner: u32, handle: u64) -> (
    [FrameEntry; 64],
    Result<(), u64>,
) {
    match entry_of(frames, owner, handle) {
        Err(error) => (frames, Err(error)),
        Ok(slot) => if frames@[slot].mapping_count == 0 {
            (frames, Err(abi::SYS_ERR_INVALID))
        } else {
            (mapping_counted(frames, slot, -1), Ok(()))
        },
    }
}

/// Counts one mapping of a frame less.
pub fn remove_mapping(frames: &mut [FrameEntry; 64], owner: u32, handle: u64) -> (r: Result<(), u64>)
    requires
        frames_ok(*old(frames)),
    ensures
        (*final(frames), r) == mapping_removed(*old(frames), owner, handle),
        frames_ok(*final(frames)),
{
    match decode_handle(handle, MAX_FRAMES) {
        None => Err(abi::SYS_ERR_INVALID),
        Some(found) => {
            let slot: usize = found.0;
            let entry: FrameEntry = frames[slot];
            assert(frames@[slot as int].wf());
            if entry.owner != owner || entry.generation != found.1 {
                return Err(abi::SYS_ERR_NOT_FOUND);
            }
            if entry.mapping_count == 0 {
                return Err(abi::SYS_ERR_INVALID);
            }
            frames[slot].mapping_count = entry.mapping_count - 1;
            Ok(())
        },
    }
}

/// What an entry becomes when the frames of `owner` go.
pub open spec fn drop_frame(owner: u32) -> spec_fn(FrameEntry) -> FrameEntry {
    |e: FrameEntry|
        if e.owner == owner {
            FrameEntry::empty(crate::handle::generation_after(e.generation))
        } else {
            e
        }
}

/// The runs of pages of `owner` in the first `k` entries, in order.
pub open spec fn runs_of(frames: [FrameEntry; 64], owner: u32, k: int) -> Seq<(u64, u64)>
    decreases k,
{
    if k <= 0 {
        Seq::empty()
    } else if frames@[k - 1].owner == owner {
        runs_of(frames, owner, k - 1).push((frames@[k - 1].pa, frames@[k - 1].pages))
    } else {
        runs_of(frames, owner, k - 1)
    }
}

impl MachineView {
    /// Every frame of `owner` goes back.
    pub open spec fn frame_cleanup(self, owner: u32) -> (MachineView, Result<(), Fault>) {
        if owner == 0 {
            (self, Ok(()))
        } else {
            let runs = runs_of(self.k.frames, owner, 64);
            let (mem, full) = self.k.mem.freed_runs(runs, runs.len() as int);
            (
                self.with_frames(
                    crate::util::mapped(self.k.frames, drop_frame(owner), 64),
                ).with_mem(mem),
                if full {
                    Err(Fault::RangeTableFull)
                } else {
                    Ok(())
                },
            )
        }
    }
}

/// Gives every frame of `owner` back. Their mappings were taken away before.
pub fn cleanup_owner(m: &mut Machine, owner: u32) -> (r: Result<(), Fault>)
    requires
        old(m)@.wf(),
    ensures
        (final(m)@, r) == old(m)@.frame_cleanup(owner),
        final(m)@.wf(),
{
    if owner == 0 {
        return Ok(());
    }
    let mut reclaimed: Vec<(u64, u64)> = Vec::new();
    let ghost frames = m.k.frames;
    let mut slot: usize = 0;
    while slot < MAX_FRAMES
        invariant
            slot <= 64,
            frames == old(m)@.k.frames,
            frames_ok(frames),
            m@.wf(),
            m@ == old(m)@.with_frames(crate::util::mapped(frames, drop_frame(owner), slot as int)),
            reclaimed@ == runs_of(frames, owner, slot as int),
            forall|i: int|
                0 <= i < reclaimed@.len() ==> PhysicalMemory::returnable(
                    (#[trigger] reclaimed@[i]).0,
                    reclaimed@[i].1,
                ),
        decreases 64 - slot,
    {
        proof {
            crate::util::lemma_mapped(frames, drop_frame(owner), slot as int);
            assert(m.k.frames@[slot as int] == frames@[slot as int]);
            assert(m.k.frames@[slot as int].wf());
        }
        let entry: FrameEntry = m.k.frames[slot];
        if entry.owner == owner {
            reclaimed.push((entry.pa, entry.pages));
            m.k.frames[slot] = FrameEntry {
                owner: 0,
                generation: next_generation(entry.generation),
                pa: 0,
                pages: 0,
                mapping_count: 0,
            };
        }
        slot = slot + 1;
        assert(m.k.frames =~= crate::util::mapped(frames, drop_frame(owner), slot as int));
    }
    match physical::free_runs(&mut m.k.mem, &reclaimed) {
        Ok(()) => Ok(()),
        Err(_) => Err(Fault::RangeTableFull),
    }
}

/// A freed frame's handle never resolves again before the slot has gone through every
/// generation: right after the call it is stale for everyone.
pub proof fn law_freed_handle_is_stale(s: MachineView, owner: u32, handle: u64, anyone: u32)
    requires
        s.wf(),
        owner != 0,
        s.frame_free(owner, handle).1 == Ok::<u64, Fault>(0),
    ensures
        entry_of(s.frame_free(owner, handle).0.k.frames, anyone, handle) is Err,
{
    let slot = entry_of(s.k.frames, owner, handle)->Ok_0;
    assert(s.k.frames@[slot].wf());
    crate::handle::law_generation_moves(s.k.frames@[slot].generation);
}

/// The handle of a new frame resolves to the frame for its owner and for no one else.
pub proof fn law_new_frame_resolves(s: MachineView, owner: u32, pages: u64, align_pages: u64)
    requires
        s.wf(),
        !abi::sys_error(s.frame_allocate(owner, pages, align_pages).1),
    ensures
        ({
            let (n, handle) = s.frame_allocate(owner, pages, align_pages);
            &&& entry_of(n.k.frames, owner, handle) is Ok
            &&& n.k.frames@[entry_of(n.k.frames, owner, handle)->Ok_0].pages == pages
            &&& forall|other: u32|
                other != owner ==> (#[trigger] entry_of(n.k.frames, other, handle)) is Err
        }),
{
    lemma_free_entry(s.k.frames, 0);
    let slot = free_entry(s.k.frames, 0)->0;
    assert(s.k.frames@[slot].wf());
    crate::handle::law_handle_round_trip(slot, s.k.frames@[slot].generation, 64);
}

pub(crate) proof fn lemma_free_entry(frames: [FrameEntry; 64], from: int)
    requires
        0 <= from,
    ensures
        match free_entry(frames, from) {
            Some(i) => from <= i < 64 && frames@[i].owner == 0,
            None => forall|i: int| from <= i < 64 ==> frames@[i].owner != 0,
        },
    decreases 64 - from,
{
    if from < 64 && frames@[from].owner != 0 {
        lemma_free_entry(frames, from + 1);
    }
}

/// Every frame that is in use is clear of the free pages and of every other frame, and no free
/// page is recorded twice.
pub open spec fn frames_isolated(k: Kernel) -> bool {
    &&& k.mem.disjoint()
    &&& forall|i: int, a: int|
        0 <= i < 64 && k.frames@[i].owner != 0 && (#[trigger] run_of(k.frames@[i])).covers(a)
            ==> !#[trigger] k.mem.is_free(a)
    &&& forall|i: int, j: int|
        0 <= i < j < 64 && k.frames@[i].owner != 0 && k.frames@[j].owner != 0 ==> (
        #[trigger] run_of(k.frames@[i])).apart(#[trigger] run_of(k.frames@[j]))
}

/// The pages of a frame as a range.
pub open spec fn run_of(entry: FrameEntry) -> physical::FreeRange {
    physical::FreeRange { base: entry.pa, pages: entry.pages }
}

/// Making a frame keeps frames isolated: no page ever belongs to two frames, nor to a frame and
/// the free pages.
pub proof fn law_allocate_isolates(s: MachineView, owner: u32, pages: u64, align_pages: u64)
    requires
        s.wf(),
        frames_isolated(s.k),
    ensures
        frames_isolated(s.frame_allocate(owner, pages, align_pages).0.k),
{
    let n = s.frame_allocate(owner, pages, align_pages).0;
    if request_ok(owner, pages, align_pages) {
        lemma_free_entry(s.k.frames, 0);
        if let Some(slot) = free_entry(s.k.frames, 0) {
            physical::law_aligned_alloc(s.k.mem, pages, align_pages);
            let (mem, run) = s.k.mem.aligned_alloc(pages, align_pages);
            assert(forall|a: int| mem.is_free(a) ==> s.k.mem.is_free(a));
            assert forall|i: int, a: int|
                0 <= i < 64 && n.k.frames@[i].owner != 0 && (#[trigger] run_of(
                    n.k.frames@[i],
                )).covers(a) implies !#[trigger] n.k.mem.is_free(a) by {
                if run is Some && i == slot {
                } else {
                    assert(run_of(s.k.frames@[i]).covers(a));
                    assert(!s.k.mem.is_free(a));
                }
            }
            assert forall|i: int, j: int|
                0 <= i < j < 64 && n.k.frames@[i].owner != 0 && n.k.frames@[j].owner != 0 implies (
            #[trigger] run_of(n.k.frames@[i])).apart(#[trigger] run_of(n.k.frames@[j])) by {
                if run is Some && (i == slot || j == slot) {
                    let other = if i == slot {
                        j
                    } else {
                        i
                    };
                    let mine = run_of(n.k.frames@[slot]);
                    let theirs = run_of(s.k.frames@[other]);
                    assert(n.k.frames@[other] == s.k.frames@[other]);
                    if !mine.apart(theirs) {
                        let a = if mine.base > theirs.base {
                            mine.base as int
                        } else {
                            theirs.base as int
                        };
                        assert(mine.covers(a) && theirs.covers(a));
                        assert(s.k.mem.is_free(a));
                        assert(run_of(s.k.frames@[other]).covers(a));
                    }
                } else {
                    assert(run_of(s.k.frames@[i]).apart(run_of(s.k.frames@[j])));
                }
            }
        }
    }
}

/// Giving a frame back keeps frames isolated.
pub proof fn law_free_isolates(s: MachineView, owner: u32, handle: u64)
    requires
        s.wf(),
        frames_isolated(s.k),
    ensures
        frames_isolated(s.frame_free(owner, handle).0.k),
{
    reveal(PhysicalMemory::freed);
    let (n, r) = s.frame_free(owner, handle);
    if owner != 0 {
        if let Ok(slot) = entry_of(s.k.frames, owner, handle) {
            let entry = s.k.frames@[slot];
            assert(entry.wf());
            if entry.mapping_count == 0 {
                let gone = run_of(entry);
                if r == Ok::<u64, Fault>(0) {
                    if entry.pages != 0 {
                        physical::law_freed(s.k.mem, entry.pa, entry.pages);
                        assert forall|i: int| 0 <= i < s.k.mem.count implies (
                        #[trigger] s.k.mem.ranges@[i]).apart(gone) by {
                            let r = s.k.mem.ranges@[i];
                            if !r.apart(gone) {
                                let a = if r.base > gone.base {
                                    r.base as int
                                } else {
                                    gone.base as int
                                };
                                assert(r.covers(a) && gone.covers(a));
                                assert(s.k.mem.is_free(a));
                                assert(run_of(s.k.frames@[slot]).covers(a));
                            }
                        }
                    }
                    assert(n.k.mem.disjoint());
                }
                assert forall|i: int, a: int|
                    0 <= i < 64 && n.k.frames@[i].owner != 0 && (#[trigger] run_of(
                        n.k.frames@[i],
                    )).covers(a) implies !#[trigger] n.k.mem.is_free(a) by {
                    assert(i != slot);
                    assert(run_of(s.k.frames@[i]).covers(a));
                    assert(!s.k.mem.is_free(a));
                    if gone.covers(a) {
                        if i < slot {
                            assert(run_of(s.k.frames@[i]).apart(run_of(s.k.frames@[slot])));
                        } else {
                            assert(run_of(s.k.frames@[slot]).apart(run_of(s.k.frames@[i])));
                        }
                    }
                }
                assert forall|i: int, j: int|
                    0 <= i < j < 64 && n.k.frames@[i].owner != 0 && n.k.frames@[j].owner
                        != 0 implies (#[trigger] run_of(n.k.frames@[i])).apart(
                    #[trigger] run_of(n.k.frames@[j]),
                ) by {
                    assert(run_of(s.k.frames@[i]).apart(run_of(s.k.frames@[j])));
                }
            }
        }
    }
}

/// Number of pages of the frames of `owner` in the first `k` entries.
pub open spec fn pages_of(frames: [FrameEntry; 64], owner: u32, k: int) -> int
    decreases k,
{
    if k <= 0 {
        0
    } else {
        pages_of(frames, owner, k - 1) + if frames@[k - 1].owner == owner {
            frames@[k - 1].pages as int
        } else {
            0
        }
    }
}

proof fn lemma_runs_of(k: Kernel, owner: u32, n: int)
    requires
        frames_ok(k.frames),
        frames_isolated(k),
        owner != 0,
        0 <= n <= 64,
    ensures
        ({
            let runs = runs_of(k.frames, owner, n);
            &&& physical::pages_in(runs, runs.len() as int) == pages_of(k.frames, owner, n)
            &&& physical::runs_out(k.mem, runs)
            &&& forall|i: int|
                0 <= i < runs.len() ==> exists|slot: int|
                    0 <= slot < n && (#[trigger] k.frames@[slot]).owner == owner
                        && physical::range_of(#[trigger] runs[i]) == run_of(k.frames@[slot])
        }),
    decreases n,
{
    if n > 0 {
        lemma_runs_of(k, owner, n - 1);
        let before = runs_of(k.frames, owner, n - 1);
        let runs = runs_of(k.frames, owner, n);
        let entry = k.frames@[n - 1];
        assert(entry.wf());
        if entry.owner == owner {
            let last = before.len() as int;
            assert(forall|i: int| 0 <= i < last ==> runs[i] == before[i]);
            lemma_pages_in(before, runs, last);
            assert forall|i: int| 0 <= i < runs.len() implies exists|slot: int|
                0 <= slot < n && (#[trigger] k.frames@[slot]).owner == owner
                    && physical::range_of(#[trigger] runs[i]) == run_of(k.frames@[slot]) by {
                if i < last {
                    let slot = choose|slot: int|
                        0 <= slot < n - 1 && (#[trigger] k.frames@[slot]).owner == owner
                            && physical::range_of(before[i]) == run_of(k.frames@[slot]);
                    assert(k.frames@[slot].owner == owner);
                } else {
                    assert(k.frames@[n - 1].owner == owner);
                }
            }
            assert forall|i: int, a: int|
                0 <= i < runs.len() && #[trigger] physical::range_of(runs[i]).covers(
                    a,
                ) implies !k.mem.is_free(a) by {
                if i == last {
                    assert(run_of(k.frames@[n - 1]).covers(a));
                } else {
                    assert(physical::range_of(before[i]).covers(a));
                }
            }
            assert forall|i: int, j: int| 0 <= i < j < runs.len() implies physical::range_of(
                #[trigger] runs[i],
            ).apart(physical::range_of(#[trigger] runs[j])) by {
                if j == last {
                    let slot = choose|slot: int|
                        0 <= slot < n - 1 && (#[trigger] k.frames@[slot]).owner == owner
                            && physical::range_of(before[i]) == run_of(k.frames@[slot]);
                    assert(run_of(k.frames@[slot]).apart(run_of(k.frames@[n - 1])));
                } else {
                    assert(physical::range_of(before[i]).apart(physical::range_of(before[j])));
                }
            }
            assert forall|i: int| 0 <= i < runs.len() implies PhysicalMemory::returnable(
                (#[trigger] runs[i]).0,
                runs[i].1,
            ) by {
                if i < last {
                    assert(PhysicalMemory::returnable(before[i].0, before[i].1));
                }
            }
        } else {
            assert forall|i: int| 0 <= i < runs.len() implies exists|slot: int|
                0 <= slot < n && (#[trigger] k.frames@[slot]).owner == owner
                    && physical::range_of(#[trigger] runs[i]) == run_of(k.frames@[slot]) by {
                let slot = choose|slot: int|
                    0 <= slot < n - 1 && (#[trigger] k.frames@[slot]).owner == owner
                        && physical::range_of(before[i]) == run_of(k.frames@[slot]);
                assert(k.frames@[slot].owner == owner);
            }
        }
    }
}

proof fn lemma_pages_in(a: Seq<(u64, u64)>, b: Seq<(u64, u64)>, k: int)
    requires
        k <= a.len(),
        k <= b.len(),
        forall|i: int| 0 <= i < k ==> a[i] == b[i],
    ensures
        physical::pages_in(a, k) == physical::pages_in(b, k),
    decreases k,
{
    if k > 0 {
        lemma_pages_in(a, b, k - 1);
    }
}

/// When the frames of an owner go, each of their handles becomes stale, the free pages grow by
/// exactly their pages, and the frames of everyone else stay as they were. Frames stay isolated.
/// For no owner nothing happens.
pub proof fn law_cleanup_returns_frames(s: MachineView, owner: u32)
    requires
        s.wf(),
        frames_isolated(s.k),
        s.frame_cleanup(owner).1 is Ok,
    ensures
        owner == 0 ==> s.frame_cleanup(owner).0 == s,
        owner != 0 ==> ({
            let n = s.frame_cleanup(owner).0;
            &&& forall|handle: u64|
                entry_of(s.k.frames, owner, handle) is Ok ==> #[trigger] entry_of(
                    n.k.frames,
                    owner,
                    handle,
                ) == Err::<int, u64>(abi::SYS_ERR_NOT_FOUND)
            &&& n.k.mem.free_total() == s.k.mem.free_total() + pages_of(s.k.frames, owner, 64)
            &&& forall|other: u32, handle: u64|
                other != 0 && other != owner ==> #[trigger] entry_of(n.k.frames, other, handle)
                    == entry_of(s.k.frames, other, handle)
            &&& forall|i: int|
                0 <= i < 64 && s.k.frames@[i].owner != owner ==> #[trigger] n.k.frames@[i]
                    == s.k.frames@[i]
            &&& frames_isolated(n.k)
        }),
{
    if owner != 0 {
        let n = s.frame_cleanup(owner).0;
        let f = drop_frame(owner);
        crate::util::lemma_mapped(s.k.frames, f, 64);
        assert forall|i: int| 0 <= i < 64 implies #[trigger] n.k.frames@[i] == f(
            s.k.frames@[i],
        ) by {}
        assert forall|handle: u64| entry_of(s.k.frames, owner, handle) is Ok implies
            #[trigger] entry_of(n.k.frames, owner, handle) == Err::<int, u64>(
            abi::SYS_ERR_NOT_FOUND,
        ) by {
            let slot = entry_of(s.k.frames, owner, handle)->Ok_0;
            assert(n.k.frames@[slot] == f(s.k.frames@[slot]));
        }
        assert forall|other: u32, handle: u64| other != 0 && other != owner implies
            #[trigger] entry_of(n.k.frames, other, handle) == entry_of(
            s.k.frames,
            other,
            handle,
        ) by {
            if let Some(found) = crate::handle::decoded(handle, 64) {
                assert(n.k.frames@[found.0] == f(s.k.frames@[found.0]));
            }
        }
        let runs = runs_of(s.k.frames, owner, 64);
        lemma_runs_of(s.k, owner, 64);
        physical::law_runs_freed(s.k.mem, runs, runs.len() as int);
        assert forall|i: int, a: int|
            0 <= i < 64 && n.k.frames@[i].owner != 0 && (#[trigger] run_of(
                n.k.frames@[i],
            )).covers(a) implies !#[trigger] n.k.mem.is_free(a) by {
            assert(n.k.frames@[i] == s.k.frames@[i]);
            assert(run_of(s.k.frames@[i]).covers(a));
            assert(!s.k.mem.is_free(a));
            if n.k.mem.is_free(a) {
                let j = choose|j: int|
                    0 <= j < runs.len() && #[trigger] physical::range_of(runs[j]).covers(a);
                let slot = choose|slot: int|
                    0 <= slot < 64 && (#[trigger] s.k.frames@[slot]).owner == owner
                        && physical::range_of(runs[j]) == run_of(s.k.frames@[slot]);
                if i < slot {
                    assert(run_of(s.k.frames@[i]).apart(run_of(s.k.frames@[slot])));
                } else {
                    assert(run_of(s.k.frames@[slot]).apart(run_of(s.k.frames@[i])));
                }
            }
        }
        assert forall|i: int, j: int|
            0 <= i < j < 64 && n.k.frames@[i].owner != 0 && n.k.frames@[j].owner != 0 implies (
        #[trigger] run_of(n.k.frames@[i])).apart(#[trigger] run_of(n.k.frames@[j])) by {
            assert(n.k.frames@[i] == s.k.frames@[i] && n.k.frames@[j] == s.k.frames@[j]);
            assert(run_of(s.k.frames@[i]).apart(run_of(s.k.frames@[j])));
        }
    }
}

} // verus!
