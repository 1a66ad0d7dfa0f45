//! What the calls on memory give the task and take back: frames and their mappings, devices, and
//! memory for DMA.
use crate::abi;
use crate::hw::HwOp;
use crate::laws::access::{self, mapped_as, nothing_at, only_run_changed, same_pages};
use crate::laws::exchange::{asks, results_in};
use crate::machine::{Dispatch, Entry, MachineView};
use crate::memory::frame::{self, FrameEntry};
use crate::memory::physical::PHYSICAL_LIMIT;
use crate::memory::vspace::MappingEntry;
use crate::memory::{mmu, physical, vspace};
use crate::syscall::dispatch;
use crate::syscall::dispatch::TrapFrame;
use vstd::prelude::*;

verus! {

proof fn lemma_free_entry(frames: [FrameEntry; 64], from: int)
    requires
        0 <= from,
    ensures
        match frame::free_entry(frames, from) {
            Some(slot) => from <= slot < 64 && frames@[slot].owner == 0,
            None => forall|i: int| from <= i < 64 ==> (#[trigger] frames@[i]).owner != 0,
        },
    decreases 64 - from,
{
    if from < 64 {
        lemma_free_entry(frames, from + 1);
    }
}

/// A frame that is asked for has from one page up to 4096, aligned to a power of two of up to 512
/// pages. The frame that is made has as many pages, begins at such a boundary, belongs to the task,
/// is found by its handle and is mapped nowhere. Its entry was unused; no other entry changes.
pub proof fn law_new_frame_is_as_asked(s: MachineView, cx: Entry, frame: TrapFrame)
    requires
        asks(s, cx, frame, abi::SYS_FRAME_ALLOC),
        s.k.mem.disjoint(),
    ensures
        ({
            let pages = frame.x@[0];
            let align = frame.x@[1];
            let (t, result, next) = s.svc_frame(cx, frame);
            let found = frame::entry_of(t.k.frames, s.k.task.owner(), result.x@[0]);
            &&& next == Dispatch::Return
            &&& results_in(frame, result, result.x@[0])
            &&& same_pages(s, t)
            &&& if pages < 1 || pages > 4096 || align < 1 || align > 512
                || !crate::util::power_of_two(align as int) {
                t == s && result.x@[0] == abi::SYS_ERR_INVALID
            } else if forall|i: int| 0 <= i < 64 ==> (#[trigger] s.k.frames@[i]).owner != 0 {
                t == s && result.x@[0] == abi::SYS_ERR_NO_SLOT
            } else if result.x@[0] == abi::SYS_ERR_NO_MEMORY {
                t.k.frames == s.k.frames && t.ops == s.ops
            } else {
                &&& found is Ok
                &&& s.k.frames@[found->Ok_0].owner == 0
                &&& t.k.frames@[found->Ok_0].pages == pages
                &&& t.k.frames@[found->Ok_0].pa as int % (align * 4096) == 0
                &&& t.k.frames@[found->Ok_0].mapping_count == 0
                &&& forall|i: int|
                    0 <= i < 64 && i != found->Ok_0 ==> #[trigger] t.k.frames@[i] == s.k.frames@[i]
            }
        }),
{
    let pages = frame.x@[0];
    let align = frame.x@[1];
    lemma_free_entry(s.k.frames, 0);
    physical::law_aligned_alloc(s.k.mem, pages, align);
    if let Some(slot) = frame::free_entry(s.k.frames, 0) {
        assert(s.k.frames@[slot].wf());
        crate::handle::law_handle_round_trip(slot, s.k.frames@[slot].generation, 64);
        crate::handle::law_handle_is_no_error(slot, s.k.frames@[slot].generation);
    }
    let (t, result, next) = s.svc_frame(cx, frame);
    assert(t.tables == s.tables);
}

/// A frame goes back exactly if it is the task's and mapped nowhere. Then its handle leads nowhere
/// and its pages are free; no other entry changes.
pub proof fn law_freed_frame_is_gone(s: MachineView, cx: Entry, frame: TrapFrame)
    requires
        asks(s, cx, frame, abi::SYS_FRAME_FREE),
        s.k.mem.wf(),
    ensures
        ({
            let found = frame::entry_of(s.k.frames, s.k.task.owner(), frame.x@[0]);
            let entry = s.k.frames@[found->Ok_0];
            let (t, result, next) = s.svc_frame(cx, frame);
            &&& same_pages(s, t)
            &&& if found is Err {
                t == s && results_in(frame, result, found->Err_0) && next == Dispatch::Return
            } else if entry.mapping_count != 0 {
                &&& t == s
                &&& results_in(frame, result, abi::SYS_ERR_BUSY)
                &&& next == Dispatch::Return
            } else {
                &&& frame::entry_of(t.k.frames, s.k.task.owner(), frame.x@[0]) is Err
                &&& t.k.frames@[found->Ok_0].owner == 0
                &&& forall|i: int|
                    0 <= i < 64 && i != found->Ok_0 ==> #[trigger] t.k.frames@[i] == s.k.frames@[i]
                &&& next == Dispatch::Return || next == Dispatch::Halt
                &&& next == Dispatch::Return ==> {
                    &&& results_in(frame, result, 0)
                    &&& t.k.mem == s.k.mem.freed(entry.pa, entry.pages)
                }
            }
        }),
{
    let found = frame::entry_of(s.k.frames, s.k.task.owner(), frame.x@[0]);
    if let Ok(slot) = found {
        assert(s.k.frames@[slot].wf());
        crate::handle::law_generation_moves(s.k.frames@[slot].generation);
    }
    let (t, result, next) = s.svc_frame(cx, frame);
    assert(t.tables == s.tables);
}

/// What a request to map a frame says: the address space, the frame, the first page of the frame,
/// how many pages, where to, and with which rights.
pub struct MapRequest {
    pub space: u64,
    pub frame: u64,
    pub first: u64,
    pub pages: u64,
    pub va: u64,
    pub rights: u64,
}

/// The request that a call makes: one call maps into the caller's own address space, the other
/// into one that it names.
pub open spec fn request_of(s: MachineView, cx: Entry, frame: TrapFrame) -> MapRequest {
    if frame.x@[8] == abi::SYS_FRAME_MAP {
        MapRequest {
            space: s.k.spaces.handle_on(cx.cpu),
            frame: frame.x@[0],
            first: frame.x@[1],
            pages: frame.x@[2],
            va: frame.x@[3],
            rights: frame.x@[4],
        }
    } else {
        MapRequest {
            space: frame.x@[0],
            frame: frame.x@[1],
            first: frame.x@[2],
            pages: frame.x@[3],
            va: frame.x@[4],
            rights: frame.x@[5],
        }
    }
}

/// Whole pages that lie in a window.
pub open spec fn within(va: u64, pages: u64, low: u64, high: int) -> bool {
    va % 4096 == 0 && pages > 0 && low <= va && va + pages * 4096 <= high
}

/// Where the two calls may map to: the caller's own space has the frame arena and the heap, a space
/// that is being built has the frame arena and the whole user window.
pub open spec fn in_windows(own: bool, va: u64, pages: u64) -> bool {
    ||| within(va, pages, abi::FRAME_ARENA_BASE, abi::FRAME_ARENA_END as int)
    ||| own && within(
        va,
        pages,
        abi::USER_HEAP_BASE,
        abi::USER_HEAP_BASE + abi::USER_HEAP_SIZE,
    )
    ||| !own && within(va, pages, abi::USER_BASE, abi::USER_WINDOW_END as int)
}

/// The pages of a frame are mapped in order where the request says, for EL0 to read, and to write
/// or execute exactly as the rights say: 1 is reading, 3 is reading and writing, 5 is reading and
/// executing, and there are no others. Nothing was mapped there, the pages are all of the frame,
/// and the target is in a window. A request that fails maps nothing and unmaps nothing.
#[verifier::spinoff_prover]
pub proof fn law_mapped_frame_is_as_asked(s: MachineView, cx: Entry, frame: TrapFrame)
    requires
        asks(s, cx, frame, abi::SYS_FRAME_MAP) || asks(s, cx, frame, abi::SYS_FRAME_MAP_TO),
    ensures
        ({
            let q = request_of(s, cx, frame);
            let own = frame.x@[8] == abi::SYS_FRAME_MAP;
            let found = frame::entry_of(s.k.frames, s.k.task.owner(), q.frame);
            let space = s.k.spaces.find_for(s.k.task.owner(), q.space);
            let entry = s.k.frames@[found->Ok_0];
            let root = s.k.spaces.spaces@[space->Ok_0].root_pa;
            let (t, result, next) = s.svc_frame(cx, frame);
            &&& next == Dispatch::Return
            &&& results_in(frame, result, result.x@[0])
            &&& t.k.threads == s.k.threads
            &&& t.k.ipc == s.k.ipc
            &&& if abi::sys_error(result.x@[0]) {
                same_pages(s, t) && t.k.spaces.mappings == s.k.spaces.mappings
            } else {
                &&& in_windows(own, q.va, q.pages)
                &&& q.rights == 1 || q.rights == 3 || q.rights == 5
                &&& found is Ok
                &&& space is Ok
                &&& q.first + q.pages <= entry.pages
                &&& mapped_as(
                    t,
                    root,
                    q.va as int,
                    entry.pa + q.first * 4096,
                    q.pages as int,
                    q.rights == 3,
                    q.rights == 5,
                    0,
                )
                &&& nothing_at(s, root, q.va as int, q.pages as int)
                &&& only_run_changed(s, t, root, q.va as int, q.pages as int)
                &&& t.k.frames@[found->Ok_0].mapping_count == entry.mapping_count + 1
            }
        }),
{
    let q = request_of(s, cx, frame);
    let owner = s.k.task.owner();
    let own = frame.x@[8] == abi::SYS_FRAME_MAP;
    let (t, result, next) = s.svc_frame(cx, frame);
    assert((t, result.x@[0]) == s.map_frame(
        owner,
        q.space,
        q.frame,
        q.first,
        q.pages,
        q.va,
        q.rights,
        own,
    ));
    lemma_map_frame(s, owner, q, own);
}

#[verifier::spinoff_prover]
#[verifier::rlimit(40)]
proof fn lemma_map_frame(s: MachineView, owner: u32, q: MapRequest, own: bool)
    requires
        s.wf(),
        owner != 0,
    ensures
        ({
            let found = frame::entry_of(s.k.frames, owner, q.frame);
            let space = s.k.spaces.find_for(owner, q.space);
            let entry = s.k.frames@[found->Ok_0];
            let root = s.k.spaces.spaces@[space->Ok_0].root_pa;
            let (t, result) = s.map_frame(
                owner,
                q.space,
                q.frame,
                q.first,
                q.pages,
                q.va,
                q.rights,
                own,
            );
            &&& t.k.threads == s.k.threads
            &&& t.k.ipc == s.k.ipc
            &&& t.k.task == s.k.task
            &&& t.paging_ok()
            &&& if abi::sys_error(result) {
                same_pages(s, t) && t.k.spaces.mappings == s.k.spaces.mappings
            } else {
                &&& in_windows(own, q.va, q.pages)
                &&& q.rights == 1 || q.rights == 3 || q.rights == 5
                &&& found is Ok
                &&& space is Ok
                &&& q.first + q.pages <= entry.pages
                &&& mapped_as(
                    t,
                    root,
                    q.va as int,
                    entry.pa + q.first * 4096,
                    q.pages as int,
                    q.rights == 3,
                    q.rights == 5,
                    0,
                )
                &&& nothing_at(s, root, q.va as int, q.pages as int)
                &&& only_run_changed(s, t, root, q.va as int, q.pages as int)
                &&& t.k.frames == frame::mapping_counted(s.k.frames, found->Ok_0, 1)
                &&& entry.mapping_count < u32::MAX
                &&& recorded(s, t, owner, q, result, entry.pa, root)
            }
        }),
{
    let found = frame::entry_of(s.k.frames, owner, q.frame);
    let space = s.k.spaces.find_for(owner, q.space);
    let (t, result) = s.map_frame(
        owner,
        q.space,
        q.frame,
        q.first,
        q.pages,
        q.va,
        q.rights,
        own,
    );
    if found is Ok && space is Ok && in_windows(own, q.va, q.pages) && (q.rights == 1 || q.rights
        == 3 || q.rights == 5) && q.first + q.pages <= s.k.frames@[found->Ok_0].pages {
        let slot = found->Ok_0;
        let entry = s.k.frames@[slot];
        assert(entry.wf());
        let root = s.k.spaces.spaces@[space->Ok_0].root_pa;
        lemma_no_mapping_left(s.k.spaces, 0);
        if let Some(place) = s.k.spaces.free_mapping(0) {
            let pa = (entry.pa + q.first * 4096) as u64;
            let a = if vspace::executes(q.rights) {
                s.op(HwOp::SyncForExec { pa, pages: q.pages })
            } else {
                s
            };
            let counted = a.with_frames(frame::mapping_counted(a.k.frames, slot, 1)).with_spaces(
                a.k.spaces.mapping_added(space->Ok_0),
            );
            assert(counted.tables == s.tables);
            assert(counted.paging_ok());
            let flags = vspace::flags_for(q.rights)->0;
            access::lemma_map_checked(
                counted,
                root,
                q.va as int,
                pa as int,
                flags,
                q.pages as int,
                q.rights == 3,
                q.rights == 5,
                0,
            );
            vspace::lemma_map_checked_frame(
                counted,
                root,
                q.va as int,
                pa as int,
                flags,
                q.pages as int,
            );
            let (b, error) = counted.map_checked(
                root,
                q.va as int,
                pa as int,
                flags,
                q.pages as int,
            );
            assert(forall|r: u64, x: int| #[trigger] counted.page_at(r, x) == s.page_at(r, x));
            assert(s.k.spaces.mappings@[place].wf());
            let generation = s.k.spaces.mappings@[place].generation;
            crate::handle::law_handle_round_trip(place, generation, 128);
            crate::handle::law_handle_is_no_error(place, generation);
            if !abi::sys_error(result) {
                assert(error is None);
                assert(t.tables == b.tables);
                assert forall|x: int| q.va <= x < q.va + q.pages * 4096 implies #[trigger] s.page_at(
                    root,
                    x,
                ) is None by {
                    assert(counted.page_at(root, x) is None);
                }
                assert forall|r: u64, x: int|
                    0 <= x < 0x80_0000_0000 && !(r == root && q.va <= x < q.va + q.pages
                        * 4096) implies #[trigger] t.page_at(r, x) == s.page_at(r, x) by {
                    assert(t.page_at(r, x) == b.page_at(r, x));
                    assert(b.page_at(r, x) == counted.page_at(r, x));
                }
                assert(t.k.frames == frame::mapping_counted(s.k.frames, slot, 1));
                assert(recorded(s, t, owner, q, result, entry.pa, root));
                assert(pa == entry.pa + q.first * 4096);
                assert forall|x: int| q.va <= x < q.va + q.pages
                    * 4096 implies #[trigger] t.page_at(root, x) == b.page_at(root, x) by {}
                access::lemma_mapped_stays(
                    b,
                    t,
                    root,
                    q.va as int,
                    pa as int,
                    q.pages as int,
                    q.rights == 3,
                    q.rights == 5,
                    0,
                );
            } else {
                assert(t.tables == b.tables && error is Some || t.tables == s.tables);
                assert forall|r: u64, x: int| #[trigger] t.page_at(r, x) == s.page_at(r, x) by {
                    assert(b.page_at(r, x) == counted.page_at(r, x) || t.tables == s.tables);
                }
                assert(t.k.spaces.mappings == s.k.spaces.mappings);
                assert(t.k.mem == b.k.mem || t.k.mem == s.k.mem);
            }
        } else {
            assert(t == s);
        }
    } else {
        assert(t == s);
        assert(abi::sys_error(result));
    }
}

/// The handle names a record of what was asked for, in a place that was free.
pub open spec fn recorded(
    s: MachineView,
    t: MachineView,
    owner: u32,
    q: MapRequest,
    handle: u64,
    frame_pa: u64,
    root: u64,
) -> bool {
    let named = crate::handle::decoded(handle, 128);
    &&& named is Some
    &&& s.k.spaces.mappings@[(named->0).0].owner == 0
    &&& t.k.spaces.mappings@[(named->0).0] == (MappingEntry {
        owner,
        generation: (named->0).1,
        frame_handle: q.frame,
        frame_pa,
        target_vspace: q.space,
        target_root: root,
        offset_pages: q.first,
        pages: q.pages,
        va: q.va,
        rights: q.rights,
    })
    &&& forall|i: int|
        0 <= i < 128 && i != (named->0).0 ==> #[trigger] t.k.spaces.mappings@[i]
            == s.k.spaces.mappings@[i]
}

/// A mapping of the same frame may write what the request would execute, or execute what it would
/// write.
pub open spec fn clashes(s: MachineView, q: MapRequest) -> bool {
    exists|i: int|
        0 <= i < 128 && (#[trigger] s.k.spaces.mappings@[i]).owner != 0
            && s.k.spaces.mappings@[i].frame_handle == q.frame && ((q.rights == 3
            && s.k.spaces.mappings@[i].rights & 4 != 0) || (q.rights == 5
            && s.k.spaces.mappings@[i].rights & 2 != 0))
}

/// A request to map a frame is refused only for a reason, and the error names it: a target outside
/// the windows or pages that the frame has not, rights that do not exist or clash with another
/// mapping of the frame, a frame or a space that the task has not, no room to record one more
/// mapping, something that is mapped there, or no memory for tables.
pub proof fn law_refused_mapping_has_a_reason(s: MachineView, cx: Entry, frame: TrapFrame)
    requires
        asks(s, cx, frame, abi::SYS_FRAME_MAP) || asks(s, cx, frame, abi::SYS_FRAME_MAP_TO),
    ensures
        ({
            let q = request_of(s, cx, frame);
            let own = frame.x@[8] == abi::SYS_FRAME_MAP;
            let found = frame::entry_of(s.k.frames, s.k.task.owner(), q.frame);
            let space = s.k.spaces.find_for(s.k.task.owner(), q.space);
            let entry = s.k.frames@[found->Ok_0];
            let root = s.k.spaces.spaces@[space->Ok_0].root_pa;
            let (t, result, next) = s.svc_frame(cx, frame);
            let code = result.x@[0];
            if !in_windows(own, q.va, q.pages) {
                code == abi::SYS_ERR_INVALID
            } else if q.rights != 1 && q.rights != 3 && q.rights != 5 {
                code == abi::SYS_ERR_DENIED
            } else if found is Err {
                code == abi::SYS_ERR_NOT_FOUND
            } else if q.first + q.pages > entry.pages {
                code == abi::SYS_ERR_INVALID
            } else if space is Err {
                code == abi::SYS_ERR_NOT_FOUND
            } else if clashes(s, q) {
                code == abi::SYS_ERR_DENIED
            } else if forall|i: int|
                0 <= i < 128 ==> (#[trigger] s.k.spaces.mappings@[i]).owner != 0 {
                code == abi::SYS_ERR_NO_SLOT
            } else if entry.mapping_count == u32::MAX {
                code == abi::SYS_ERR_INVALID
            } else if s.k.spaces.spaces@[space->Ok_0].mapping_count == u16::MAX {
                code == abi::SYS_ERR_BUSY
            } else if !nothing_at(s, root, q.va as int, q.pages as int) {
                code == abi::SYS_ERR_CONFLICT
            } else {
                !abi::sys_error(code) || code == abi::SYS_ERR_NO_MEMORY || code
                    == abi::SYS_ERR_CONFLICT
            }
        }),
{
    reveal(MachineView::map_checked);
    let q = request_of(s, cx, frame);
    let own = frame.x@[8] == abi::SYS_FRAME_MAP;
    let found = frame::entry_of(s.k.frames, s.k.task.owner(), q.frame);
    let space = s.k.spaces.find_for(s.k.task.owner(), q.space);
    let (t, result, next) = s.svc_frame(cx, frame);
    assert((t, result.x@[0]) == s.map_frame(
        s.k.task.owner(),
        q.space,
        q.frame,
        q.first,
        q.pages,
        q.va,
        q.rights,
        own,
    ));
    assert(1u64 & 2 == 0 && 1u64 & 4 == 0 && 3u64 & 2 != 0 && 3u64 & 4 == 0 && 5u64 & 2 == 0
        && 5u64 & 4 != 0) by (bit_vector);
    if found is Ok && space is Ok && in_windows(own, q.va, q.pages) && (q.rights == 1 || q.rights
        == 3 || q.rights == 5) {
        assert(s.k.spaces.forbids(q.frame, q.rights) == clashes(s, q)) by {
            if s.k.spaces.forbids(q.frame, q.rights) {
                let i = choose|i: int|
                    0 <= i < 128 && (#[trigger] s.k.spaces.mappings@[i]).owner != 0
                        && s.k.spaces.mappings@[i].frame_handle == q.frame && ((vspace::writes(
                        q.rights,
                    ) && vspace::executes(s.k.spaces.mappings@[i].rights)) || (vspace::executes(
                        q.rights,
                    ) && vspace::writes(s.k.spaces.mappings@[i].rights)));
                assert(s.k.spaces.mappings@[i].owner != 0);
            }
            if clashes(s, q) {
                let i = choose|i: int|
                    0 <= i < 128 && (#[trigger] s.k.spaces.mappings@[i]).owner != 0
                        && s.k.spaces.mappings@[i].frame_handle == q.frame && ((q.rights == 3
                        && s.k.spaces.mappings@[i].rights & 4 != 0) || (q.rights == 5
                        && s.k.spaces.mappings@[i].rights & 2 != 0));
                assert(s.k.spaces.mappings@[i].owner != 0);
            }
        }
        lemma_no_mapping_left(s.k.spaces, 0);
        if let Some(place) = s.k.spaces.free_mapping(0) {
            let root = s.k.spaces.spaces@[space->Ok_0].root_pa;
            assert(s.k.spaces.mappings@[place].wf());
            let generation = s.k.spaces.mappings@[place].generation;
            crate::handle::law_handle_is_no_error(place, generation);
            let slot = found->Ok_0;
            let entry = s.k.frames@[slot];
            let pa = (entry.pa + q.first * 4096) as u64;
            let a = if vspace::executes(q.rights) {
                s.op(HwOp::SyncForExec { pa, pages: q.pages })
            } else {
                s
            };
            let counted = a.with_frames(frame::mapping_counted(a.k.frames, slot, 1)).with_spaces(
                a.k.spaces.mapping_added(space->Ok_0),
            );
            assert(counted.tables == s.tables);
            if !nothing_at(s, root, q.va as int, q.pages as int) {
                let x = choose|x: int|
                    q.va <= x < q.va + q.pages * 4096 && #[trigger] s.page_at(root, x) is Some;
                mmu::lemma_run_range(x, q.va as int, q.pages as int);
                let j = (x - q.va) / 4096;
                mmu::lemma_same_page_at(counted, root, x, mmu::page_va(q.va as int, j));
                assert(counted.page_at(root, x) == s.page_at(root, x));
                assert(counted.page_at(root, q.va + j * 4096) is Some);
                assert(!counted.run_unmapped(root, q.va as int, q.pages as int));
            }
        }
    }
}

proof fn lemma_no_mapping_left(spaces: vspace::VSpaces, from: int)
    requires
        0 <= from,
    ensures
        match spaces.free_mapping(from) {
            Some(slot) => from <= slot < 128 && spaces.mappings@[slot].owner == 0,
            None => forall|i: int| from <= i < 128 ==> (#[trigger] spaces.mappings@[i]).owner != 0,
        },
    decreases 128 - from,
{
    if from < 128 {
        lemma_no_mapping_left(spaces, from + 1);
    }
}

/// A mapping that was made can be taken away again by its handle, and then everything is as before:
/// every translation, and how often the frame is mapped. Its handle leads nowhere after that.
#[verifier::spinoff_prover]
#[verifier::rlimit(40)]
pub proof fn law_unmapping_undoes_mapping(s: MachineView, owner: u32, q: MapRequest, own: bool)
    requires
        s.wf(),
        owner != 0,
        !abi::sys_error(
            s.map_frame(owner, q.space, q.frame, q.first, q.pages, q.va, q.rights, own).1,
        ),
    ensures
        ({
            let (t, handle) = s.map_frame(
                owner,
                q.space,
                q.frame,
                q.first,
                q.pages,
                q.va,
                q.rights,
                own,
            );
            let (u, code) = t.unmap_handle(owner, handle);
            let found = frame::entry_of(s.k.frames, owner, q.frame);
            let root = s.k.spaces.spaces@[s.k.spaces.find_for(owner, q.space)->Ok_0].root_pa;
            &&& code == 0
            &&& nothing_at(u, root, q.va as int, q.pages as int)
            &&& only_run_changed(s, u, root, q.va as int, q.pages as int)
            &&& u.k.frames == s.k.frames
            &&& u.unmap_handle(owner, handle) == (u, abi::SYS_ERR_NOT_FOUND)
        }),
{
    let (t, handle) = s.map_frame(
        owner,
        q.space,
        q.frame,
        q.first,
        q.pages,
        q.va,
        q.rights,
        own,
    );
    lemma_map_frame(s, owner, q, own);
    let found = frame::entry_of(s.k.frames, owner, q.frame);
    let root = s.k.spaces.spaces@[s.k.spaces.find_for(owner, q.space)->Ok_0].root_pa;
    let named = crate::handle::decoded(handle, 128)->0;
    let place = named.0;
    let entry = t.k.spaces.mappings@[place];
    let pa = s.k.frames@[found->Ok_0].pa + q.first * 4096;
    assert(t.run_maps(root, q.va as int, pa, q.pages as int)) by {
        assert forall|j: int| 0 <= j < q.pages implies match (#[trigger] t.page_at(
            root,
            q.va + j * 4096,
        )) {
            Some(word) => word & mmu::OUTPUT_ADDRESS_MASK == pa + j * 4096,
            None => false,
        } by {
            let x = q.va + j * 4096;
            assert((x - q.va) / 4096 == j);
            assert(t.page_at(root, x) is Some);
        }
    }
    mmu::law_unmap_counts_mapped(t, root, q.va as int, q.pages as int);
    assert(mmu::mapped_in_run(t, root, q.va as int, q.pages as int) == q.pages) by {
        lemma_all_mapped(t, root, q.va as int, q.pages as int, q.pages as int);
    }
    access::lemma_unmap_run(t, root, q.va as int, q.pages as int);
    let (a, removed) = t.unmap_run(root, q.va as int, q.pages as int);
    let b = a.op(HwOp::FlushTlb);
    let (frames, counted) = frame::mapping_removed(b.k.frames, owner, q.frame);
    assert(b.k == t.k);
    assert(frame::entry_of(t.k.frames, owner, q.frame) == found);
    assert(counted is Ok);
    assert(frames@ =~= s.k.frames@);
    assert(frames =~= s.k.frames);
    let (u, code) = t.unmap_handle(owner, handle);
    assert(u.tables == a.tables);
    assert forall|x: int| q.va <= x < q.va + q.pages * 4096 implies #[trigger] u.page_at(root, x)
        is None by {
        assert(a.page_at(root, x) is None);
    }
    assert forall|r: u64, x: int|
        0 <= x < 0x80_0000_0000 && !(r == root && q.va <= x < q.va + q.pages
            * 4096) implies #[trigger] u.page_at(r, x) == s.page_at(r, x) by {
        assert(u.page_at(r, x) == a.page_at(r, x));
        assert(a.page_at(r, x) == t.page_at(r, x));
    }
    assert(entry.generation == named.1);
    lemma_record_generation(s, owner, q, own);
    crate::handle::law_generation_moves(entry.generation);
}

/// The record of a new mapping keeps the generation of its place.
proof fn lemma_record_generation(s: MachineView, owner: u32, q: MapRequest, own: bool)
    requires
        s.wf(),
        owner != 0,
        !abi::sys_error(
            s.map_frame(owner, q.space, q.frame, q.first, q.pages, q.va, q.rights, own).1,
        ),
    ensures
        ({
            let (t, handle) = s.map_frame(
                owner,
                q.space,
                q.frame,
                q.first,
                q.pages,
                q.va,
                q.rights,
                own,
            );
            crate::handle::generation_ok(crate::handle::decoded(handle, 128)->Some_0.1)
        }),
{
    lemma_no_mapping_left(s.k.spaces, 0);
    let place = s.k.spaces.free_mapping(0)->0;
    assert(s.k.spaces.mappings@[place].wf());
    crate::handle::law_handle_round_trip(place, s.k.spaces.mappings@[place].generation, 128);
}

proof fn lemma_all_mapped(t: MachineView, root: u64, va: int, n: int, k: int)
    requires
        0 <= k <= n,
        forall|j: int| 0 <= j < n ==> (#[trigger] t.page_at(root, va + j * 4096)) is Some,
    ensures
        mmu::mapped_in_run(t, root, va, k) == k,
    decreases k,
{
    if k > 0 {
        lemma_all_mapped(t, root, va, n, k - 1);
        assert(t.page_at(root, va + (k - 1) * 4096) is Some);
    }
}


/// The whole pages that hold `size` bytes.
pub open spec fn pages_for(size: u64) -> int {
    (size + 4095) / 4096
}

proof fn lemma_rounded(size: u64)
    requires
        size + 4095 <= u64::MAX,
    ensures
        dispatch::rounded(size) == Some(pages_for(size) * 4096),
        pages_for(size) * 4096 / 4096 == pages_for(size),
        size <= pages_for(size) * 4096 < size + 4096,
{
    crate::util::lemma_round_up(size as int, 4096);
}

/// A run of pages in the user window that meets nothing that the task has: none of its own pages,
/// no device, no DMA memory, and not the places of its boot information, its heap and its stack.
pub open spec fn vacant(s: MachineView, va: u64, n: int) -> bool {
    let end = va + n * 4096;
    &&& s.k.task.active
    &&& n > 0
    &&& abi::USER_BASE <= va
    &&& end <= abi::USER_WINDOW_END
    &&& forall|i: int|
        0 <= i < s.k.task.owned_count ==> end <= (#[trigger] s.k.task.owned@[i]).va
            || s.k.task.owned@[i].va + s.k.task.owned@[i].pages * 4096 <= va
    &&& forall|i: int|
        0 <= i < s.k.task.mmio_count ==> end <= (#[trigger] s.k.task.mmio@[i]).va
            || s.k.task.mmio@[i].va + s.k.task.mmio@[i].pages * 4096 <= va
    &&& forall|i: int|
        0 <= i < s.k.task.dma_count ==> end <= (#[trigger] s.k.task.dma@[i]).va
            || s.k.task.dma@[i].va + s.k.task.dma@[i].pages * 4096 <= va
    &&& end <= abi::USER_BOOT_INFO_VA || abi::USER_BOOT_INFO_VA + 4096 <= va
    &&& end <= abi::USER_HEAP_BASE || abi::USER_HEAP_BASE + abi::USER_HEAP_SIZE <= va
    &&& end <= abi::USER_STACK_TOP - 0x1_0000 || abi::USER_STACK_TOP <= va
}

proof fn lemma_vacant(s: MachineView, va: u64, n: u64)
    ensures
        s.k.task.available(va, n) == vacant(s, va, n as int),
{
    let task = s.k.task;
    let end = va + n * 4096;
    if task.available(va, n) {
        assert forall|i: int| 0 <= i < task.owned_count implies end <= (#[trigger] task.owned@[i]).va
            || task.owned@[i].va + task.owned@[i].pages * 4096 <= va by {
            assert(!crate::object::task::overlaps(
                va as int,
                n as int,
                task.owned@[i].va as int,
                task.owned@[i].pages as int,
            ));
        }
        assert forall|i: int| 0 <= i < task.mmio_count implies end <= (#[trigger] task.mmio@[i]).va
            || task.mmio@[i].va + task.mmio@[i].pages * 4096 <= va by {
            assert(!crate::object::task::overlaps(
                va as int,
                n as int,
                task.mmio@[i].va as int,
                task.mmio@[i].pages as int,
            ));
        }
        assert forall|i: int| 0 <= i < task.dma_count implies end <= (#[trigger] task.dma@[i]).va
            || task.dma@[i].va + task.dma@[i].pages * 4096 <= va by {
            assert(!crate::object::task::overlaps(
                va as int,
                n as int,
                task.dma@[i].va as int,
                task.dma@[i].pages as int,
            ));
        }
    }
}

/// A device is mapped for the task exactly where it asked, if whole pages are asked for, if they
/// are all inside a known window and inside one grant of the task, if there is room to record it,
/// and if the place is vacant. The pages are mapped in order as device memory, for EL0 to read and
/// write, and nothing else changes. Otherwise nothing changes at all.
#[verifier::spinoff_prover]
pub proof fn law_device_is_mapped_as_asked(s: MachineView, cx: Entry, frame: TrapFrame)
    requires
        asks(s, cx, frame, abi::SYS_MAP_MMIO),
        frame.x@[0] + frame.x@[1] + 4095 <= PHYSICAL_LIMIT,
    ensures
        ({
            let paddr = frame.x@[0];
            let size = frame.x@[1];
            let va = frame.x@[2];
            let n = pages_for(size);
            let bytes = (n * 4096) as u64;
            let (t, result, next) = s.svc_frame(cx, frame);
            if paddr % 4096 != 0 || va % 4096 != 0 || size == 0 {
                t == s && results_in(frame, result, 1) && next == Dispatch::Return
            } else if !s.k.protect.allows(paddr, bytes) || !s.k.task.grants(paddr, bytes) {
                t == s && results_in(frame, result, 2) && next == Dispatch::Return
            } else if s.k.active_table == 0 {
                t == s && results_in(frame, result, 3) && next == Dispatch::Return
            } else if s.k.task.mmio_count >= 16 {
                t == s && results_in(frame, result, 4) && next == Dispatch::Return
            } else if !vacant(s, va, n) {
                t == s && results_in(frame, result, 5) && next == Dispatch::Return
            } else {
                &&& next == Dispatch::Return || next == Dispatch::Halt
                &&& only_run_changed(s, t, s.k.active_table, va as int, n)
                &&& t.k.threads == s.k.threads
                &&& t.k.ipc == s.k.ipc
                &&& next == Dispatch::Return ==> {
                    &&& results_in(frame, result, 0)
                    &&& mapped_as(
                        t,
                        s.k.active_table,
                        va as int,
                        paddr as int,
                        n,
                        true,
                        false,
                        access::DEVICE,
                    )
                    &&& t.k.task.mmio_count == s.k.task.mmio_count + 1
                    &&& t.k.task.mmio@[s.k.task.mmio_count as int].va == va
                    &&& t.k.task.mmio@[s.k.task.mmio_count as int].pages == n
                    &&& forall|i: int|
                        0 <= i < s.k.task.mmio_count ==> #[trigger] t.k.task.mmio@[i]
                            == s.k.task.mmio@[i]
                }
            }
        }),
{
    let paddr = frame.x@[0];
    let size = frame.x@[1];
    let va = frame.x@[2];
    let n = pages_for(size);
    lemma_rounded(size);
    lemma_vacant(s, va, n as u64);
    let (t, result, next) = s.svc_frame(cx, frame);
    if paddr % 4096 == 0 && va % 4096 == 0 && size != 0 && vacant(s, va, n) {
        access::lemma_map_run(
            s,
            s.k.active_table,
            va as int,
            paddr as int,
            mmu::MMU_USER_DEV,
            n,
            true,
            false,
            access::DEVICE,
        );
        dispatch::lemma_map_run_frame(
            s,
            s.k.active_table,
            va as int,
            paddr as int,
            mmu::MMU_USER_DEV,
            n,
        );
        let (b, fault) = s.map_run(
            s.k.active_table,
            va as int,
            paddr as int,
            mmu::MMU_USER_DEV,
            n,
        );
        assert(b.tables == t.tables || t == s);
        if t != s {
            assert forall|r: u64, x: int|
                0 <= x < 0x80_0000_0000 && !(r == s.k.active_table && va <= x < va + n
                    * 4096) implies #[trigger] t.page_at(r, x) == s.page_at(r, x) by {
                assert(t.page_at(r, x) == b.page_at(r, x));
            }
            if fault is None {
                assert forall|x: int| va <= x < va + n * 4096 implies #[trigger] t.page_at(
                    s.k.active_table,
                    x,
                ) == b.page_at(s.k.active_table, x) by {}
                access::lemma_mapped_stays(
                    b,
                    t,
                    s.k.active_table,
                    va as int,
                    paddr as int,
                    n,
                    true,
                    false,
                    access::DEVICE,
                );
            }
        }
    }
}

/// The first record of a device at exactly these pages.
proof fn lemma_mmio_at(s: MachineView, va: u64, n: u64, from: int)
    requires
        0 <= from,
        s.k.task.mmio_count <= 16,
    ensures
        match s.k.task.mmio_at(va, n, from) {
            Some(i) => from <= i < s.k.task.mmio_count && s.k.task.mmio@[i].va == va
                && s.k.task.mmio@[i].pages == n,
            None => forall|i: int|
                from <= i < s.k.task.mmio_count ==> (#[trigger] s.k.task.mmio@[i]).va != va
                    || s.k.task.mmio@[i].pages != n,
        },
    decreases s.k.task.mmio_count - from,
{
    if from < s.k.task.mmio_count {
        lemma_mmio_at(s, va, n, from + 1);
    }
}

/// The record of device `i` is gone; the last one took its place, and the others stay.
pub open spec fn device_dropped(s: MachineView, t: MachineView, i: int) -> bool {
    let last = s.k.task.mmio_count - 1;
    &&& t.k.task.mmio_count == last
    &&& forall|j: int|
        0 <= j < last ==> #[trigger] t.k.task.mmio@[j] == s.k.task.mmio@[if j == i {
            last
        } else {
            j
        }]
}

/// A device that the task has at exactly these pages is unmapped: nothing is mapped there any more
/// and no other page changes. One record of it goes, and the others stay. What the task has not
/// mapped in this way is refused, and nothing changes.
#[verifier::spinoff_prover]
pub proof fn law_device_is_unmapped(s: MachineView, cx: Entry, frame: TrapFrame)
    requires
        asks(s, cx, frame, abi::SYS_UNMAP_MMIO),
        frame.x@[0] + frame.x@[1] + 4095 <= 0x80_0000_0000,
    ensures
        ({
            let va = frame.x@[0];
            let size = frame.x@[1];
            let n = pages_for(size);
            let root = s.k.active_table;
            let (t, result, next) = s.svc_frame(cx, frame);
            &&& next == Dispatch::Return
            &&& if va % 4096 != 0 || size == 0 {
                t == s && results_in(frame, result, 1)
            } else if forall|i: int|
                0 <= i < s.k.task.mmio_count ==> (#[trigger] s.k.task.mmio@[i]).va != va
                    || s.k.task.mmio@[i].pages != n {
                t == s && results_in(frame, result, 2)
            } else {
                &&& nothing_at(t, root, va as int, n)
                &&& only_run_changed(s, t, root, va as int, n)
                &&& exists|i: int|
                    0 <= i < s.k.task.mmio_count && (#[trigger] s.k.task.mmio@[i]).va == va
                        && s.k.task.mmio@[i].pages == n && device_dropped(s, t, i)
                &&& results_in(
                    frame,
                    result,
                    if mmu::mapped_in_run(s, root, va as int, n) == n {
                        0
                    } else {
                        3
                    },
                )
            }
        }),
{
    let va = frame.x@[0];
    let size = frame.x@[1];
    let n = pages_for(size);
    let root = s.k.active_table;
    lemma_rounded(size);
    if va % 4096 == 0 && size != 0 {
        lemma_mmio_at(s, va, n as u64, 0);
        if let Some(i) = s.k.task.mmio_at(va, n as u64, 0) {
            let a = s.with_task(s.k.task.without_mmio(i));
            assert(a.tables == s.tables);
            access::lemma_unmap_run(a, root, va as int, n);
            mmu::law_unmap_counts_mapped(a, root, va as int, n);
            lemma_same_count(s, a, root, va as int, n);
            let b = a.unmap_run(root, va as int, n).0;
            let (t, result, next) = s.svc_frame(cx, frame);
            assert(t.tables == b.tables);
            assert(device_dropped(s, t, i));
            assert(s.k.task.mmio@[i].va == va);
            assert forall|x: int| va <= x < va + n * 4096 implies #[trigger] t.page_at(root, x)
                is None by {
                assert(b.page_at(root, x) is None);
            }
            assert forall|r: u64, x: int|
                0 <= x < 0x80_0000_0000 && !(r == root && va <= x < va + n
                    * 4096) implies #[trigger] t.page_at(r, x) == s.page_at(r, x) by {
                assert(t.page_at(r, x) == b.page_at(r, x));
                assert(b.page_at(r, x) == a.page_at(r, x));
                assert(a.page_at(r, x) == s.page_at(r, x));
            }
        }
    }
}

proof fn lemma_same_count(s: MachineView, t: MachineView, root: u64, va: int, n: int)
    requires
        t.tables == s.tables,
    ensures
        mmu::mapped_in_run(s, root, va, n) == mmu::mapped_in_run(t, root, va, n),
    decreases n,
{
    if n > 0 {
        lemma_same_count(s, t, root, va, n - 1);
        assert(s.page_at(root, mmu::page_va(va, n - 1)) == t.page_at(
            root,
            mmu::page_va(va, n - 1),
        ));
    }
}


/// A power of two of at most 4096 divides a page; a greater one is whole pages.
proof fn lemma_alignment(alignment: u64)
    requires
        crate::util::power_of_two(alignment as int),
    ensures
        alignment > 0,
        alignment <= 4096 ==> 4096int % (alignment as int) == 0,
        alignment > 4096 ==> alignment % 4096 == 0,
        alignment > 4096 ==> dispatch::dma_align_pages(alignment) * 4096 == alignment,
{
    let k = choose|k: nat|
        k < 64 && alignment as int == #[trigger] vstd::arithmetic::power2::pow2(k);
    vstd::arithmetic::power2::lemma_pow2_pos(k);
    vstd::arithmetic::power2::lemma2_to64();
    if k <= 12 {
        vstd::arithmetic::power2::lemma_pow2_adds(k, (12 - k) as nat);
        let rest = vstd::arithmetic::power2::pow2((12 - k) as nat) as int;
        assert(alignment * rest == 4096);
        vstd::arithmetic::div_mod::lemma_mod_multiples_basic(rest, alignment as int);
        assert(rest * alignment == 4096) by (nonlinear_arith)
            requires
                alignment * rest == 4096,
        ;
        if alignment > 4096 {
            vstd::arithmetic::power2::lemma_pow2_strictly_increases(12, k);
        }
    } else {
        vstd::arithmetic::power2::lemma_pow2_adds(12, (k - 12) as nat);
        let rest = vstd::arithmetic::power2::pow2((k - 12) as nat) as int;
        assert(4096 * rest == alignment);
        vstd::arithmetic::power2::lemma_pow2_strictly_increases(12, k);
    }
}

proof fn lemma_aligned(pa: int, alignment: u64)
    requires
        crate::util::power_of_two(alignment as int),
        pa % (dispatch::dma_align_pages(alignment) * 4096) == 0,
    ensures
        pa % (alignment as int) == 0,
        pa % 4096 == 0,
{
    lemma_alignment(alignment);
    let a = alignment as int;
    if alignment <= 4096 {
        assert(pa % 4096 == 0);
        let q = pa / 4096;
        let r = 4096int / a;
        assert(4096 == a * r) by {
            vstd::arithmetic::div_mod::lemma_fundamental_div_mod(4096, a);
        }
        assert(pa == 4096 * q);
        assert(pa == (r * q) * a) by (nonlinear_arith)
            requires
                pa == 4096 * q,
                4096 == a * r,
        ;
        vstd::arithmetic::div_mod::lemma_mod_multiples_basic(r * q, a);
    } else {
        let q = pa / a;
        let r = a / 4096;
        assert(a == 4096 * r);
        assert(pa == a * q) by {
            vstd::arithmetic::div_mod::lemma_fundamental_div_mod(pa, a);
        }
        assert(pa == (r * q) * 4096) by (nonlinear_arith)
            requires
                pa == a * q,
                a == 4096 * r,
        ;
        vstd::arithmetic::div_mod::lemma_mod_multiples_basic(r * q, 4096);
    }
}

/// Memory for DMA is whole pages in one run that begins at the alignment that was asked for, a
/// power of two of up to 2 MiB. It is mapped in order and uncached where the task asked, for EL0 to
/// read and write, and recorded; nothing else changes. Where it cannot be had, the largest number
/// says so and no translation changes.
#[verifier::spinoff_prover]
#[verifier::rlimit(40)]
pub proof fn law_dma_memory_is_as_asked(s: MachineView, cx: Entry, frame: TrapFrame)
    requires
        asks(s, cx, frame, abi::SYS_DMA_ALLOC),
        s.k.mem.disjoint(),
    ensures
        ({
            let size = frame.x@[0];
            let alignment = frame.x@[1];
            let va = frame.x@[2];
            let n = pages_for(size);
            let root = s.k.active_table;
            let (t, result, next) = s.svc_frame(cx, frame);
            let pa = result.x@[0];
            let count = s.k.task.dma_count;
            &&& t.k.threads == s.k.threads
            &&& t.k.ipc == s.k.ipc
            &&& if size == 0 || size + 4095 > u64::MAX || va % 4096 != 0 || alignment > 0x20_0000
                || !crate::util::power_of_two(alignment as int) || !vacant(s, va, n) {
                t == s && results_in(frame, result, u64::MAX) && next == Dispatch::Return
            } else if next == Dispatch::Return && pa != u64::MAX {
                &&& results_in(frame, result, pa)
                &&& pa as int % (alignment as int) == 0
                &&& mapped_as(t, root, va as int, pa as int, n, true, false, access::UNCACHED)
                &&& only_run_changed(s, t, root, va as int, n)
                &&& t.k.task.dma_count == count + 1
                &&& t.k.task.dma@[count as int].va == va
                &&& t.k.task.dma@[count as int].pa == pa
                &&& t.k.task.dma@[count as int].pages == n
                &&& forall|i: int|
                    0 <= i < count ==> #[trigger] t.k.task.dma@[i] == s.k.task.dma@[i]
            } else if next == Dispatch::Return {
                same_pages(s, t) && t.k.task == s.k.task
            } else {
                next == Dispatch::Halt
            }
        }),
{
    let size = frame.x@[0];
    let alignment = frame.x@[1];
    let va = frame.x@[2];
    let n = pages_for(size);
    let root = s.k.active_table;
    let (t, result, next) = s.svc_frame(cx, frame);
    if size != 0 && size + 4095 <= u64::MAX {
        lemma_rounded(size);
        lemma_vacant(s, va, n as u64);
        if va % 4096 == 0 && alignment <= 0x20_0000 && crate::util::power_of_two(alignment as int)
            && vacant(s, va, n) {
            let align = dispatch::dma_align_pages(alignment);
            physical::law_aligned_alloc(s.k.mem, n as u64, align);
            let (mem, run) = s.k.mem.aligned_alloc(n as u64, align);
            let a = s.with_mem(mem);
            if let Some(pa) = run {
                lemma_aligned(pa as int, alignment);
                let b = a.op(HwOp::Zero { pa, bytes: (n * 4096) as u64 });
                assert(b.tables == s.tables);
                if b.k.task.dma_count < 64 {
                    let c = b.with_task(b.k.task.with_dma(va, pa, n as u64));
                    assert(c.tables == s.tables);
                    access::lemma_map_run(
                        c,
                        root,
                        va as int,
                        pa as int,
                        mmu::MMU_USER_DMA,
                        n,
                        true,
                        false,
                        access::UNCACHED,
                    );
                    dispatch::lemma_map_run_frame(
                        c,
                        root,
                        va as int,
                        pa as int,
                        mmu::MMU_USER_DMA,
                        n,
                    );
                    let (d, fault) = c.map_run(root, va as int, pa as int, mmu::MMU_USER_DMA, n);
                    if fault is None {
                        assert(t.tables == d.tables);
                        assert(result.x@[0] == pa);
                        assert forall|r: u64, x: int|
                            0 <= x < 0x80_0000_0000 && !(r == root && va <= x < va + n
                                * 4096) implies #[trigger] t.page_at(r, x) == s.page_at(r, x) by {
                            assert(t.page_at(r, x) == d.page_at(r, x));
                            assert(d.page_at(r, x) == c.page_at(r, x));
                            assert(c.page_at(r, x) == s.page_at(r, x));
                        }
                        assert forall|x: int| va <= x < va + n * 4096 implies #[trigger] t.page_at(
                            root,
                            x,
                        ) == d.page_at(root, x) by {}
                        access::lemma_mapped_stays(
                            d,
                            t,
                            root,
                            va as int,
                            pa as int,
                            n,
                            true,
                            false,
                            access::UNCACHED,
                        );
                    }
                } else {
                    assert(t.tables == s.tables);
                    assert forall|r: u64, x: int| #[trigger] t.page_at(r, x) == s.page_at(r, x) by {}
                }
            } else {
                assert(t.tables == s.tables);
                assert forall|r: u64, x: int| #[trigger] t.page_at(r, x) == s.page_at(r, x) by {}
            }
        }
    }
}

proof fn lemma_dma_at(s: MachineView, va: u64, n: u64, from: int)
    requires
        0 <= from,
        s.k.task.dma_count <= 64,
    ensures
        match s.k.task.dma_at(va, n, from) {
            Some(i) => from <= i < s.k.task.dma_count && s.k.task.dma@[i].va == va
                && s.k.task.dma@[i].pages == n,
            None => forall|i: int|
                from <= i < s.k.task.dma_count ==> (#[trigger] s.k.task.dma@[i]).va != va
                    || s.k.task.dma@[i].pages != n,
        },
    decreases s.k.task.dma_count - from,
{
    if from < s.k.task.dma_count {
        lemma_dma_at(s, va, n, from + 1);
    }
}

/// The record of DMA memory `i` is gone; the last one took its place, and the others stay.
pub open spec fn dma_dropped(s: MachineView, t: MachineView, i: int) -> bool {
    let last = s.k.task.dma_count - 1;
    &&& t.k.task.dma_count == last
    &&& forall|j: int|
        0 <= j < last ==> #[trigger] t.k.task.dma@[j] == s.k.task.dma@[if j == i {
            last
        } else {
            j
        }]
}

/// DMA memory that the task has at exactly these pages is unmapped, its record goes, and its pages
/// are free again. What the task has not is refused, and nothing changes.
#[verifier::spinoff_prover]
pub proof fn law_dma_memory_goes_back(s: MachineView, cx: Entry, frame: TrapFrame)
    requires
        asks(s, cx, frame, abi::SYS_DMA_FREE),
        frame.x@[0] + frame.x@[1] + 4095 <= 0x80_0000_0000,
        s.k.mem.wf(),
    ensures
        ({
            let va = frame.x@[0];
            let size = frame.x@[1];
            let n = pages_for(size);
            let root = s.k.active_table;
            let (t, result, next) = s.svc_frame(cx, frame);
            if va % 4096 != 0 || size == 0 {
                t == s && results_in(frame, result, 1) && next == Dispatch::Return
            } else if forall|i: int|
                0 <= i < s.k.task.dma_count ==> (#[trigger] s.k.task.dma@[i]).va != va
                    || s.k.task.dma@[i].pages != n {
                t == s && results_in(frame, result, 2) && next == Dispatch::Return
            } else {
                &&& nothing_at(t, root, va as int, n)
                &&& only_run_changed(s, t, root, va as int, n)
                &&& exists|i: int|
                    0 <= i < s.k.task.dma_count && (#[trigger] s.k.task.dma@[i]).va == va
                        && s.k.task.dma@[i].pages == n && dma_dropped(s, t, i) && (
                    mmu::mapped_in_run(s, root, va as int, n) == n && next == Dispatch::Return
                        ==> results_in(frame, result, 0) && t.k.mem == s.k.mem.freed(
                        s.k.task.dma@[i].pa,
                        n as u64,
                    ))
                &&& mmu::mapped_in_run(s, root, va as int, n) != n ==> results_in(
                    frame,
                    result,
                    3,
                ) && next == Dispatch::Return
            }
        }),
{
    let va = frame.x@[0];
    let size = frame.x@[1];
    let n = pages_for(size);
    let root = s.k.active_table;
    lemma_rounded(size);
    if va % 4096 == 0 && size != 0 {
        lemma_dma_at(s, va, n as u64, 0);
        if let Some(i) = s.k.task.dma_at(va, n as u64, 0) {
            let pa = s.k.task.dma@[i].pa;
            let a = s.with_task(s.k.task.without_dma(i));
            assert(a.tables == s.tables);
            access::lemma_unmap_run(a, root, va as int, n);
            mmu::law_unmap_counts_mapped(a, root, va as int, n);
            lemma_same_count(s, a, root, va as int, n);
            let b = a.unmap_run(root, va as int, n).0;
            let (t, result, next) = s.svc_frame(cx, frame);
            assert(t.tables == b.tables);
            assert(dma_dropped(s, t, i));
            assert(s.k.task.dma@[i].va == va);
            lemma_one_run(s.k.mem, pa, n as u64);
            assert forall|x: int| va <= x < va + n * 4096 implies #[trigger] t.page_at(root, x)
                is None by {
                assert(b.page_at(root, x) is None);
            }
            assert forall|r: u64, x: int|
                0 <= x < 0x80_0000_0000 && !(r == root && va <= x < va + n
                    * 4096) implies #[trigger] t.page_at(r, x) == s.page_at(r, x) by {
                assert(t.page_at(r, x) == b.page_at(r, x));
                assert(b.page_at(r, x) == a.page_at(r, x));
                assert(a.page_at(r, x) == s.page_at(r, x));
            }
        }
    }
}

proof fn lemma_one_run(mem: physical::PhysicalMemory, pa: u64, pages: u64)
    ensures
        ({
            let runs = seq![(pa, pages)];
            let (after, full) = mem.freed_runs(runs, 1);
            !full && pages != 0 ==> after == mem.freed(pa, pages)
        }),
{
    reveal_with_fuel(physical::PhysicalMemory::freed_runs, 3);
    reveal(physical::PhysicalMemory::freed);
}

} // verus!
