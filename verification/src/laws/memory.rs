//! Every page of memory has at most one use: no page is free and in use, and none is in use twice.
//! That takes in frames, DMA memory, stacks and message buffers of threads, the image, stack,
//! boot information and heap of the task, and translation tables.
use crate::machine::{Kernel, MachineView};
use crate::memory::frame;
use crate::memory::mmu::{self, Slot1View, Slot2View, TableView};
use crate::memory::physical::{self, FreeRange, PhysicalMemory};
use crate::memory::vspace;
use vstd::prelude::*;

verus! {

/// What may hold a run of pages.
pub enum Holder {
    /// A frame, by its slot.
    Frame(int),
    /// DMA memory of the task, by its place.
    Dma(int),
    /// The stack of a thread, by its slot.
    Stack(int),
    /// The message buffer of a thread, by its slot.
    Message(int),
    /// A segment of the task's image, by its place.
    Image(int),
    TaskStack,
    BootInfo,
    Heap,
    /// The first level of a translation table, by its place.
    Root(int),
    /// A second level, by table and place in the first level.
    Level2(int, int),
    /// A third level, by table and places in the first and second level.
    Level3(int, int, int),
    /// A run that is on its way from one use to another.
    Spare(int),
}

/// No pages.
pub open spec fn nothing() -> FreeRange {
    FreeRange { base: 0, pages: 0 }
}

pub open spec fn run(pa: u64, pages: u64) -> FreeRange {
    FreeRange { base: pa, pages }
}

/// The page of the second level at place `i` of a table, if it has one.
pub open spec fn level2(t: TableView, i: int) -> FreeRange {
    if 0 <= i < 512 {
        match t.slots[i] {
            Slot1View::Table(l2) => run(l2.pa, 1),
            Slot1View::Word(_) => nothing(),
        }
    } else {
        nothing()
    }
}

/// The page of the third level at places `i` and `j` of a table, if it has one.
pub open spec fn level3(t: TableView, i: int, j: int) -> FreeRange {
    if 0 <= i < 512 && 0 <= j < 512 {
        match t.slots[i] {
            Slot1View::Table(l2) => match l2.slots[j] {
                Slot2View::Table(l3) => run(l3.pa, 1),
                Slot2View::Word(_) => nothing(),
            },
            Slot1View::Word(_) => nothing(),
        }
    } else {
        nothing()
    }
}

/// The pages that translation tables hold.
pub open spec fn table_pages(tables: Seq<TableView>, h: Holder) -> FreeRange {
    match h {
        Holder::Root(t) => if 0 <= t < tables.len() {
            run(tables[t].root, 1)
        } else {
            nothing()
        },
        Holder::Level2(t, i) => if 0 <= t < tables.len() {
            level2(tables[t], i)
        } else {
            nothing()
        },
        Holder::Level3(t, i, j) => if 0 <= t < tables.len() {
            level3(tables[t], i, j)
        } else {
            nothing()
        },
        _ => nothing(),
    }
}

/// The pages that objects of the kernel hold.
pub open spec fn object_pages(k: Kernel, h: Holder) -> FreeRange {
    match h {
        Holder::Frame(i) => if 0 <= i < 64 && k.frames@[i].owner != 0 {
            frame::run_of(k.frames@[i])
        } else {
            nothing()
        },
        Holder::Dma(i) => if k.task.active && 0 <= i < k.task.dma_count {
            run(k.task.dma@[i].pa, k.task.dma@[i].pages)
        } else {
            nothing()
        },
        Holder::Stack(i) => if 0 <= i < 16 {
            run(k.threads.slots@[i].stack_pa, k.threads.slots@[i].stack_pages)
        } else {
            nothing()
        },
        Holder::Message(i) => if 0 <= i < 16 && k.threads.slots@[i].ipc_pa != 0 {
            run(k.threads.slots@[i].ipc_pa, 1)
        } else {
            nothing()
        },
        Holder::Image(i) => if k.task.active && 0 <= i < k.task.owned_count {
            run(k.task.owned@[i].pa, k.task.owned@[i].pages)
        } else {
            nothing()
        },
        Holder::TaskStack => if k.task.active {
            run(k.task.stack_pa, 16)
        } else {
            nothing()
        },
        Holder::BootInfo => if k.task.active {
            run(k.task.boot_info_pa, 1)
        } else {
            nothing()
        },
        Holder::Heap => if k.task.active {
            run(k.task.heap_pa, 1024)
        } else {
            nothing()
        },
        _ => nothing(),
    }
}

/// The pages that `h` holds; `spare` are the runs that are on their way.
pub open spec fn held(s: MachineView, spare: Seq<FreeRange>, h: Holder) -> FreeRange {
    match h {
        Holder::Spare(i) => if 0 <= i < spare.len() {
            spare[i]
        } else {
            nothing()
        },
        Holder::Root(_) | Holder::Level2(_, _) | Holder::Level3(_, _, _) => table_pages(
            s.tables,
            h,
        ),
        _ => object_pages(s.k, h),
    }
}

/// No page is recorded as free twice, none is free and held, and none is held twice.
pub open spec fn isolated(s: MachineView, spare: Seq<FreeRange>) -> bool {
    &&& s.k.mem.disjoint()
    &&& forall|h: Holder, a: int|
        (#[trigger] held(s, spare, h)).covers(a) ==> !#[trigger] s.k.mem.is_free(a)
    &&& forall|g: Holder, h: Holder|
        g != h ==> (#[trigger] held(s, spare, g)).apart(#[trigger] held(s, spare, h))
}

/// Every page of memory has at most one use.
pub open spec fn memory_isolated(s: MachineView) -> bool {
    isolated(s, Seq::empty())
}

/// Before anything is in use every page has at most one use, if none is recorded as free twice.
pub proof fn law_unused_memory_is_isolated(s: MachineView)
    requires
        s.k.mem.disjoint(),
        s.tables.len() == 0,
        !s.k.task.active,
        forall|i: int| 0 <= i < 64 ==> (#[trigger] s.k.frames@[i]).owner == 0,
        forall|i: int|
            0 <= i < 16 ==> (#[trigger] s.k.threads.slots@[i]).stack_pages == 0
                && s.k.threads.slots@[i].ipc_pa == 0,
    ensures
        memory_isolated(s),
{
    assert forall|h: Holder| (#[trigger] held(s, Seq::empty(), h)).pages == 0 by {}
}

/// When the hardware has carried out what it was asked for, every page has the use that it had.
pub proof fn law_hardware_moves_no_pages(s: MachineView, n: MachineView)
    requires
        memory_isolated(s),
        n.k == s.k,
        n.tables == s.tables,
    ensures
        memory_isolated(n),
{
    let none: Seq<FreeRange> = Seq::empty();
    assert forall|h: Holder| #[trigger] held(n, none, h) == held(s, none, h) by {}
    lemma_alike(s, n, none);
}

/// Where every page has at most one use, so have the pages of frames.
pub proof fn law_isolation_holds_of_frames(s: MachineView)
    requires
        memory_isolated(s),
    ensures
        frame::frames_isolated(s.k),
{
    let none: Seq<FreeRange> = Seq::empty();
    assert forall|i: int, a: int|
        0 <= i < 64 && s.k.frames@[i].owner != 0 && (#[trigger] frame::run_of(
            s.k.frames@[i],
        )).covers(a) implies !#[trigger] s.k.mem.is_free(a) by {
        assert(held(s, none, Holder::Frame(i)).covers(a));
    }
    assert forall|i: int, j: int|
        0 <= i < j < 64 && s.k.frames@[i].owner != 0 && s.k.frames@[j].owner != 0 implies (
    #[trigger] frame::run_of(s.k.frames@[i])).apart(#[trigger] frame::run_of(s.k.frames@[j])) by {
        assert(held(s, none, Holder::Frame(i)).apart(held(s, none, Holder::Frame(j))));
    }
}

/// Translation tables have their levels.
pub open spec fn shaped(tables: Seq<TableView>) -> bool {
    forall|t: int| 0 <= t < tables.len() ==> table_shaped(#[trigger] tables[t])
}

pub open spec fn table_shaped(t: TableView) -> bool {
    t.slots.len() == 512 && forall|i: int|
        0 <= i < 512 ==> match (#[trigger] t.slots[i]) {
            Slot1View::Table(l2) => l2.slots.len() == 512,
            Slot1View::Word(_) => true,
        }
}

/// The pages of translation tables can go back to the allocator.
pub open spec fn tables_returnable(tables: Seq<TableView>) -> bool {
    forall|h: Holder|
        (#[trigger] table_pages(tables, h)).pages != 0 ==> table_pages(tables, h).pages == 1
            && PhysicalMemory::returnable(table_pages(tables, h).base, 1)
}

/// What every step below keeps.
#[verifier::opaque]
pub open spec fn sound(s: MachineView, spare: Seq<FreeRange>) -> bool {
    &&& s.k.mem.wf()
    &&& shaped(s.tables)
    &&& tables_returnable(s.tables)
    &&& isolated(s, spare)
}

pub(crate) proof fn lemma_wf_shaped(s: MachineView)
    requires
        s.wf(),
    ensures
        s.k.mem.wf(),
        shaped(s.tables),
        tables_returnable(s.tables),
{
    assert forall|h: Holder| (#[trigger] table_pages(s.tables, h)).pages != 0 implies table_pages(
        s.tables,
        h,
    ).pages == 1 && PhysicalMemory::returnable(table_pages(s.tables, h).base, 1) by {
        match h {
            Holder::Root(t) => {
                assert(s.tables[t].wf());
            },
            Holder::Level2(t, i) => {
                assert(s.tables[t].wf());
                assert(s.tables[t].slots[i] is Table);
            },
            Holder::Level3(t, i, j) => {
                assert(s.tables[t].wf());
                assert(s.tables[t].slots[i] is Table);
                assert(s.tables[t].slots[i]->Table_0.slots[j] is Table);
            },
            _ => {},
        }
    }
    assert forall|t: int| 0 <= t < s.tables.len() implies table_shaped(#[trigger] s.tables[t]) by {
        assert(s.tables[t].wf());
        assert forall|i: int| 0 <= i < 512 implies match (#[trigger] s.tables[t].slots[i]) {
            Slot1View::Table(l2) => l2.slots.len() == 512,
            Slot1View::Word(_) => true,
        } by {}
    }
}

/// In a sound state memory is isolated, and isolated memory makes a sound state.
pub(crate) proof fn lemma_sound(s: MachineView)
    requires
        s.wf(),
        memory_isolated(s),
    ensures
        sound(s, Seq::empty()),
{
    reveal(sound);
    lemma_wf_shaped(s);
}

pub(crate) proof fn lemma_isolated(s: MachineView)
    requires
        sound(s, Seq::empty()),
    ensures
        memory_isolated(s),
{
    reveal(sound);
}

/// Runs change hands, or are no longer held; those that are `gone` may be free afterwards.
pub(crate) proof fn lemma_moves(
    s: MachineView,
    spare: Seq<FreeRange>,
    n: MachineView,
    after: Seq<FreeRange>,
    from: spec_fn(Holder) -> Holder,
    gone: spec_fn(Holder) -> bool,
)
    requires
        isolated(s, spare),
        n.k.mem.disjoint(),
        forall|h: Holder|
            (#[trigger] held(n, after, h)).pages != 0 ==> held(n, after, h) == held(
                s,
                spare,
                from(h),
            ) && !gone(from(h)),
        forall|g: Holder, h: Holder|
            g != h && (#[trigger] held(n, after, g)).pages != 0 && (#[trigger] held(
                n,
                after,
                h,
            )).pages != 0 ==> from(g) != from(h),
        forall|a: int|
            #[trigger] n.k.mem.is_free(a) ==> s.k.mem.is_free(a) || exists|g: Holder|
                gone(g) && #[trigger] held(s, spare, g).covers(a),
    ensures
        isolated(n, after),
{
    assert forall|h: Holder, a: int| (#[trigger] held(n, after, h)).covers(
        a,
    ) implies !#[trigger] n.k.mem.is_free(a) by {
        assert(held(n, after, h).pages != 0);
        assert(held(s, spare, from(h)).covers(a));
        if n.k.mem.is_free(a) {
            assert(!s.k.mem.is_free(a));
            let g = choose|g: Holder| gone(g) && #[trigger] held(s, spare, g).covers(a);
            assert(held(s, spare, g).apart(held(s, spare, from(h))));
        }
    }
    assert forall|g: Holder, h: Holder| g != h implies (#[trigger] held(n, after, g)).apart(
        #[trigger] held(n, after, h),
    ) by {
        if held(n, after, g).pages != 0 && held(n, after, h).pages != 0 {
            assert(held(s, spare, from(g)).apart(held(s, spare, from(h))));
        }
    }
}

/// Nothing changes hands, but some runs may no longer be held, and some pages no longer be free.
pub(crate) proof fn lemma_less(s: MachineView, n: MachineView, spare: Seq<FreeRange>)
    requires
        isolated(s, spare),
        n.k.mem.disjoint(),
        forall|h: Holder|
            (#[trigger] held(n, spare, h)).pages != 0 ==> held(n, spare, h) == held(s, spare, h),
        forall|a: int| #[trigger] n.k.mem.is_free(a) ==> s.k.mem.is_free(a),
    ensures
        isolated(n, spare),
{
    lemma_moves(s, spare, n, spare, |h: Holder| h, |h: Holder| false);
}

/// The same pages, whatever else differs.
pub(crate) proof fn lemma_alike(s: MachineView, n: MachineView, spare: Seq<FreeRange>)
    requires
        isolated(s, spare),
        n.k.mem == s.k.mem,
        forall|h: Holder| (#[trigger] held(n, spare, h)) == held(s, spare, h),
    ensures
        isolated(n, spare),
{
    lemma_less(s, n, spare);
}

/// A run that was free is handed out.
proof fn lemma_taken(
    s: MachineView,
    n: MachineView,
    spare: Seq<FreeRange>,
    new: FreeRange,
)
    requires
        isolated(s, spare),
        n.k == (Kernel { mem: n.k.mem, ..s.k }),
        n.tables == s.tables,
        n.k.mem.disjoint(),
        forall|a: int| #[trigger] new.covers(a) ==> s.k.mem.is_free(a),
        forall|a: int| #[trigger] n.k.mem.is_free(a) ==> s.k.mem.is_free(a) && !new.covers(a),
    ensures
        isolated(n, spare.push(new)),
{
    let after = spare.push(new);
    let last = Holder::Spare(spare.len() as int);
    assert forall|h: Holder| h != last implies #[trigger] held(n, after, h) == held(
        s,
        spare,
        h,
    ) by {}
    assert(held(n, after, last) == new);
    assert forall|h: Holder, a: int| (#[trigger] held(n, after, h)).covers(
        a,
    ) implies !#[trigger] n.k.mem.is_free(a) by {
        if h != last {
            assert(held(s, spare, h).covers(a));
        }
    }
    assert forall|g: Holder, h: Holder| g != h implies (#[trigger] held(n, after, g)).apart(
        #[trigger] held(n, after, h),
    ) by {
        if g != last && h != last {
            assert(held(s, spare, g).apart(held(s, spare, h)));
        } else {
            let other = if g == last {
                h
            } else {
                g
            };
            let theirs = held(s, spare, other);
            if !new.apart(theirs) {
                let a = if new.base > theirs.base {
                    new.base as int
                } else {
                    theirs.base as int
                };
                assert(new.covers(a) && theirs.covers(a));
                assert(s.k.mem.is_free(a));
                assert(held(s, spare, other).covers(a));
            }
        }
    }
}

pub(crate) proof fn lemma_pages_alloc(s: MachineView, spare: Seq<FreeRange>, n: u64)
    requires
        sound(s, spare),
    ensures
        match s.k.mem.pages_alloc(n).1 {
            Some(pa) => sound(s.with_mem(s.k.mem.pages_alloc(n).0), spare.push(run(pa, n)))
                && PhysicalMemory::returnable(pa, n),
            None => s.with_mem(s.k.mem.pages_alloc(n).0) == s,
        },
{
    reveal(sound);
    physical::law_pages_alloc(s.k.mem, n);
    physical::lemma_pages_alloc_ok(s.k.mem, n);
    if let Some(pa) = s.k.mem.pages_alloc(n).1 {
        lemma_taken(s, s.with_mem(s.k.mem.pages_alloc(n).0), spare, run(pa, n));
    }
}

pub(crate) proof fn lemma_aligned_alloc(s: MachineView, spare: Seq<FreeRange>, n: u64, align_pages: u64)
    requires
        sound(s, spare),
    ensures
        match s.k.mem.aligned_alloc(n, align_pages).1 {
            Some(pa) => sound(
                s.with_mem(s.k.mem.aligned_alloc(n, align_pages).0),
                spare.push(run(pa, n)),
            ),
            None => sound(s.with_mem(s.k.mem.aligned_alloc(n, align_pages).0), spare),
        },
{
    reveal(sound);
    physical::law_aligned_alloc(s.k.mem, n, align_pages);
    let t = s.with_mem(s.k.mem.aligned_alloc(n, align_pages).0);
    match s.k.mem.aligned_alloc(n, align_pages).1 {
        Some(pa) => {
            lemma_taken(s, t, spare, run(pa, n));
        },
        None => {
            assert forall|h: Holder| #[trigger] held(t, spare, h) == held(s, spare, h) by {}
            lemma_less(s, t, spare);
        },
    }
}

/// Runs that are on their way come back.
pub(crate) proof fn lemma_released(s: MachineView, spare: Seq<FreeRange>, runs: Seq<(u64, u64)>)
    requires
        sound(s, spare),
        runs.len() == spare.len(),
        forall|i: int|
            0 <= i < runs.len() ==> spare[i] == physical::range_of(#[trigger] runs[i])
                && PhysicalMemory::returnable(runs[i].0, runs[i].1),
        s.released(runs).1 is None,
    ensures
        sound(s.released(runs).0, Seq::empty()),
        s.released(runs).0.k == (Kernel { mem: s.released(runs).0.k.mem, ..s.k }),
        s.released(runs).0.tables == s.tables,
{
    reveal(sound);
    let n = s.released(runs).0;
    assert forall|i: int, a: int|
        0 <= i < runs.len() && #[trigger] physical::range_of(runs[i]).covers(
            a,
        ) implies !s.k.mem.is_free(a) by {
        assert(held(s, spare, Holder::Spare(i)).covers(a));
    }
    assert forall|i: int, j: int| 0 <= i < j < runs.len() implies physical::range_of(
        #[trigger] runs[i],
    ).apart(physical::range_of(#[trigger] runs[j])) by {
        assert(held(s, spare, Holder::Spare(i)).apart(held(s, spare, Holder::Spare(j))));
    }
    physical::law_runs_freed(s.k.mem, runs, runs.len() as int);
    let gone = |h: Holder| h is Spare;
    assert forall|a: int| #[trigger] n.k.mem.is_free(a) implies s.k.mem.is_free(a) || exists|
        g: Holder,
    |
        gone(g) && #[trigger] held(s, spare, g).covers(a) by {
        if !s.k.mem.is_free(a) {
            let i = choose|i: int|
                0 <= i < runs.len() && #[trigger] physical::range_of(runs[i]).covers(a);
            assert(spare[i] == physical::range_of(runs[i]));
            assert(gone(Holder::Spare(i)) && held(s, spare, Holder::Spare(i)).covers(a));
        }
    }
    assert forall|h: Holder|
        (#[trigger] held(n, Seq::empty(), h)).pages != 0 implies held(n, Seq::empty(), h) == held(
        s,
        spare,
        h,
    ) && !gone(h) by {}
    lemma_moves(s, spare, n, Seq::empty(), |h: Holder| h, gone);
}

proof fn lemma_put_leaf(s: MachineView, spare: Seq<FreeRange>, i: int, va: int, word: u64)
    requires
        sound(s, spare),
        0 <= i < s.tables.len(),
    ensures
        sound(s.put_leaf(i, va, word), spare),
        s.put_leaf(i, va, word).k == s.k,
        s.put_leaf(i, va, word).tables.len() == s.tables.len(),
{
    reveal(sound);
    let n = s.put_leaf(i, va, word);
    let t = s.tables[i];
    let u = t.with_leaf(va, word);
    assert(table_shaped(t));
    lemma_with_leaf(t, va, word);
    assert forall|h: Holder| #[trigger] table_pages(n.tables, h) == table_pages(s.tables, h) by {}
    assert forall|h: Holder| #[trigger] held(n, spare, h) == held(s, spare, h) by {
        assert(table_pages(n.tables, h) == table_pages(s.tables, h));
    }
    assert forall|k: int| 0 <= k < n.tables.len() implies table_shaped(#[trigger] n.tables[k]) by {
        if k != i {
            assert(table_shaped(s.tables[k]));
        }
    }
    lemma_alike(s, n, spare);
}

proof fn lemma_with_leaf(t: TableView, va: int, word: u64)
    requires
        table_shaped(t),
    ensures
        table_shaped(t.with_leaf(va, word)),
        t.with_leaf(va, word).root == t.root,
        forall|i: int| #[trigger] level2(t.with_leaf(va, word), i) == level2(t, i),
        forall|i: int, j: int| #[trigger] level3(t.with_leaf(va, word), i, j) == level3(t, i, j),
{
    let u = t.with_leaf(va, word);
    let place = mmu::l1_of(va);
    assert(0 <= place < 512);
    assert(0 <= mmu::l2_of(va) < 512);
    assert forall|i: int| 0 <= i < 512 implies match (#[trigger] u.slots[i]) {
        Slot1View::Table(l2) => l2.slots.len() == 512,
        Slot1View::Word(_) => true,
    } by {
        assert(match t.slots[i] {
            Slot1View::Table(l2) => l2.slots.len() == 512,
            Slot1View::Word(_) => true,
        });
    }
}

/// A table gets a level that `page` was taken for, or a level goes.
proof fn lemma_new_level(
    s: MachineView,
    n: MachineView,
    spare: Seq<FreeRange>,
    i: int,
    page: FreeRange,
    place: Holder,
)
    requires
        sound(s, spare.push(page)),
        0 <= i < s.tables.len(),
        n.k == s.k,
        n.tables == s.tables.update(i, n.tables[i]),
        table_shaped(n.tables[i]),
        n.tables[i].root == s.tables[i].root,
        !(place is Spare),
        page.pages == 1,
        PhysicalMemory::returnable(page.base, 1),
        forall|h: Holder|
            (#[trigger] table_pages(n.tables, h)).pages != 0 ==> table_pages(n.tables, h)
                == table_pages(s.tables, h) || h == place && table_pages(n.tables, h) == page,
    ensures
        sound(n, spare),
{
    reveal(sound);
    let before = spare.push(page);
    let last = Holder::Spare(spare.len() as int);
    let moved = table_pages(n.tables, place) != table_pages(s.tables, place);
    let from = |h: Holder|
        if h == place && moved {
            last
        } else {
            h
        };
    assert(held(s, before, last) == page);
    assert forall|h: Holder| (#[trigger] held(n, spare, h)).pages != 0 implies held(n, spare, h)
        == held(s, before, from(h)) by {
        if h is Root || h is Level2 || h is Level3 {
            assert(held(n, spare, h) == table_pages(n.tables, h));
        }
    }
    assert forall|g: Holder, h: Holder|
        g != h && (#[trigger] held(n, spare, g)).pages != 0 && (#[trigger] held(
            n,
            spare,
            h,
        )).pages != 0 implies from(g) != from(h) by {
        assert(held(n, spare, last) == nothing());
    }
    lemma_moves(s, before, n, spare, from, |h: Holder| false);
    assert forall|k: int| 0 <= k < n.tables.len() implies table_shaped(#[trigger] n.tables[k]) by {
        if k != i {
            assert(table_shaped(s.tables[k]));
        }
    }
}

proof fn lemma_build_l2(s: MachineView, spare: Seq<FreeRange>, i: int, va: int)
    requires
        sound(s, spare),
        0 <= i < s.tables.len(),
    ensures
        sound(s.build_l2(i, va).0, spare),
        s.build_l2(i, va).0.k == (Kernel { mem: s.build_l2(i, va).0.k.mem, ..s.k }),
        s.build_l2(i, va).0.tables.len() == s.tables.len(),
{
    reveal(sound);
    if s.tables[i].kind1(va) is Empty {
        lemma_pages_alloc(s, spare, 1);
        let (mem, page) = s.k.mem.page_alloc();
        let t = s.with_mem(mem);
        if let Some(pa) = page {
            let old_table = s.tables[i];
            let table = old_table.with_l2(va, pa);
            let n = s.build_l2(i, va).0;
            let place = mmu::l1_of(va);
            assert(table_shaped(old_table));
            assert(n.tables =~= t.tables.update(i, table));
            assert forall|k: int| 0 <= k < 512 implies match (#[trigger] table.slots[k]) {
                Slot1View::Table(l2) => l2.slots.len() == 512,
                Slot1View::Word(_) => true,
            } by {
                if k != place {
                    assert(table.slots[k] == old_table.slots[k]);
                }
            }
            assert forall|h: Holder| (#[trigger] table_pages(n.tables, h)).pages
                != 0 implies table_pages(n.tables, h) == table_pages(t.tables, h) || h
                == Holder::Level2(i, place) && table_pages(n.tables, h) == run(pa, 1) by {
                match h {
                    Holder::Level2(k, a) => {
                        if k == i && a != place && 0 <= a < 512 {
                            assert(table.slots[a] == old_table.slots[a]);
                        }
                    },
                    Holder::Level3(k, a, b) => {
                        if k == i && a != place && 0 <= a < 512 {
                            assert(table.slots[a] == old_table.slots[a]);
                        }
                    },
                    _ => {},
                }
            }
            let plain = MachineView { ops: t.ops, ..n };
            lemma_new_level(t, plain, spare, i, run(pa, 1), Holder::Level2(i, place));
            assert forall|h: Holder| #[trigger] held(n, spare, h) == held(plain, spare, h) by {}
            lemma_alike(plain, n, spare);
        }
    }
}

proof fn lemma_with_slot2(t: TableView, va: int, slot: Slot2View)
    requires
        table_shaped(t),
    ensures
        table_shaped(t.with_slot2(va, slot)),
        t.with_slot2(va, slot).root == t.root,
        forall|i: int| #[trigger] level2(t.with_slot2(va, slot), i) == level2(t, i),
        forall|i: int, j: int|
            (i != mmu::l1_of(va) || j != mmu::l2_of(va)) ==> #[trigger] level3(
                t.with_slot2(va, slot),
                i,
                j,
            ) == level3(t, i, j),
        ({
            let here = level3(t.with_slot2(va, slot), mmu::l1_of(va), mmu::l2_of(va));
            here.pages != 0 ==> match slot {
                Slot2View::Table(l3) => here == run(l3.pa, 1),
                Slot2View::Word(_) => false,
            }
        }),
{
    let u = t.with_slot2(va, slot);
    let place = mmu::l1_of(va);
    assert(0 <= place < 512);
    assert(0 <= mmu::l2_of(va) < 512);
    assert forall|i: int| 0 <= i < 512 implies match (#[trigger] u.slots[i]) {
        Slot1View::Table(l2) => l2.slots.len() == 512,
        Slot1View::Word(_) => true,
    } by {
        assert(match t.slots[i] {
            Slot1View::Table(l2) => l2.slots.len() == 512,
            Slot1View::Word(_) => true,
        });
    }
}

proof fn lemma_build_l3(s: MachineView, spare: Seq<FreeRange>, i: int, va: int)
    requires
        sound(s, spare),
        0 <= i < s.tables.len(),
    ensures
        sound(s.build_l3(i, va).0, spare),
        s.build_l3(i, va).0.k == (Kernel { mem: s.build_l3(i, va).0.k.mem, ..s.k }),
        s.build_l3(i, va).0.tables.len() == s.tables.len(),
{
    reveal(sound);
    if s.tables[i].kind2(va) is Empty {
        lemma_pages_alloc(s, spare, 1);
        let (mem, page) = s.k.mem.page_alloc();
        let t = s.with_mem(mem);
        if let Some(pa) = page {
            let n = s.build_l3(i, va).0;
            assert(table_shaped(s.tables[i]));
            lemma_with_slot2(
                s.tables[i],
                va,
                Slot2View::Table(
                    mmu::Level3View { pa, entries: Seq::new(512, |i: int| 0u64) },
                ),
            );
            assert(n.tables =~= t.tables.update(i, s.tables[i].with_l3(va, pa)));
            let place = Holder::Level3(i, mmu::l1_of(va), mmu::l2_of(va));
            assert forall|h: Holder| (#[trigger] table_pages(n.tables, h)).pages
                != 0 implies table_pages(n.tables, h) == table_pages(t.tables, h) || h == place
                && table_pages(n.tables, h) == run(pa, 1) by {}
            let plain = MachineView { ops: t.ops, ..n };
            lemma_new_level(t, plain, spare, i, run(pa, 1), place);
            assert forall|h: Holder| #[trigger] held(n, spare, h) == held(plain, spare, h) by {}
            lemma_alike(plain, n, spare);
        }
    }
}

proof fn lemma_build(s: MachineView, spare: Seq<FreeRange>, i: int, va: int)
    requires
        sound(s, spare),
        0 <= i < s.tables.len(),
    ensures
        sound(s.build(i, va).0, spare),
        s.build(i, va).0.k == (Kernel { mem: s.build(i, va).0.k.mem, ..s.k }),
        s.build(i, va).0.tables.len() == s.tables.len(),
{
    reveal(MachineView::build);
    reveal(sound);
    lemma_build_l2(s, spare, i, va);
    lemma_build_l3(s.build_l2(i, va).0, spare, i, va);
}

/// Operations on the hardware leave all pages where they are.
pub(crate) proof fn lemma_ops(s: MachineView, n: MachineView, spare: Seq<FreeRange>)
    requires
        sound(s, spare),
        n.k == s.k,
        n.tables == s.tables,
    ensures
        sound(n, spare),
{
    reveal(sound);
    assert forall|h: Holder| #[trigger] held(n, spare, h) == held(s, spare, h) by {}
    lemma_alike(s, n, spare);
}

pub(crate) proof fn lemma_map_run(
    s: MachineView,
    spare: Seq<FreeRange>,
    root: u64,
    va: int,
    pa: int,
    flags: u64,
    n: int,
)
    requires
        sound(s, spare),
    ensures
        sound(s.map_run(root, va, pa, flags, n).0, spare),
    decreases n,
{
    reveal(MachineView::build);
    reveal(MachineView::map_run);
    reveal(sound);
    if n > 0 {
        lemma_map_run(s, spare, root, va, pa, flags, n - 1);
        let t = s.map_run(root, va, pa, flags, n - 1).0;
        let at = va + (n - 1) * 4096;
        mmu::lemma_table_of(t.tables, root, 0);
        if let Some(i) = mmu::table_of(t.tables, root, 0) {
            lemma_build(t, spare, i, at);
            let u = t.build(i, at).0;
            lemma_put_leaf(
                u,
                spare,
                i,
                at,
                mmu::page_word((pa + (n - 1) * 4096) as u64, flags),
            );
        }
    }
}

pub(crate) proof fn lemma_unmap_run(s: MachineView, spare: Seq<FreeRange>, root: u64, va: int, n: int)
    requires
        sound(s, spare),
    ensures
        sound(s.unmap_run(root, va, n).0, spare),
        s.unmap_run(root, va, n).0.k == s.k,
    decreases n,
{
    reveal(MachineView::unmap_run);
    reveal(sound);
    if n > 0 {
        lemma_unmap_run(s, spare, root, va, n - 1);
        let t = s.unmap_run(root, va, n - 1).0;
        mmu::lemma_table_of(t.tables, root, 0);
        if let Some(i) = mmu::table_of(t.tables, root, 0) {
            lemma_put_leaf(t, spare, i, va + (n - 1) * 4096, 0);
        }
    }
}

proof fn lemma_checked_run(
    s: MachineView,
    spare: Seq<FreeRange>,
    root: u64,
    va: int,
    pa: int,
    flags: u64,
    n: int,
)
    requires
        sound(s, spare),
    ensures
        sound(s.checked_run(root, va, pa, flags, n).0, spare),
    decreases n,
{
    reveal(MachineView::build);
    reveal(sound);
    if n > 0 {
        lemma_checked_run(s, spare, root, va, pa, flags, n - 1);
        let t = s.checked_run(root, va, pa, flags, n - 1).0;
        let at = va + (n - 1) * 4096;
        mmu::lemma_table_of(t.tables, root, 0);
        if let Some(i) = mmu::table_of(t.tables, root, 0) {
            lemma_build(t, spare, i, at);
            let u = t.build(i, at).0;
            lemma_put_leaf(
                u,
                spare,
                i,
                at,
                mmu::page_word((pa + (n - 1) * 4096) as u64, flags),
            );
        }
    }
}

pub(crate) proof fn lemma_map_checked(
    s: MachineView,
    spare: Seq<FreeRange>,
    root: u64,
    va: int,
    pa: int,
    flags: u64,
    count: int,
)
    requires
        sound(s, spare),
    ensures
        sound(s.map_checked(root, va, pa, flags, count).0, spare),
        s.map_checked(root, va, pa, flags, count).0.k == (Kernel {
            mem: s.map_checked(root, va, pa, flags, count).0.k.mem,
            ..s.k
        }),
{
    reveal(MachineView::map_checked);
    reveal(sound);
    vspace::lemma_map_checked_frame(s, root, va, pa, flags, count);
    lemma_checked_run(s, spare, root, va, pa, flags, count);
    let (t, mapped, error) = s.checked_run(root, va, pa, flags, count);
    lemma_unmap_run(t, spare, root, va, mapped);
    lemma_ops(t, t.op(crate::hw::HwOp::FlushTlb), spare);
    let u = t.unmap_run(root, va, mapped).0;
    lemma_ops(u, u.op(crate::hw::HwOp::FlushTlb), spare);
}

pub(crate) proof fn lemma_map_block(
    s: MachineView,
    spare: Seq<FreeRange>,
    root: u64,
    va: int,
    pa: u64,
    flags: u64,
)
    requires
        sound(s, spare),
    ensures
        sound(s.map_block(root, va, pa, flags).0, spare),
{
    reveal(MachineView::map_block);
    reveal(sound);
    mmu::lemma_table_of(s.tables, root, 0);
    if let Some(i) = mmu::table_of(s.tables, root, 0) {
        lemma_build_l2(s, spare, i, va);
        let (t, error) = s.build_l2(i, va);
        if error is None {
            let n = s.map_block(root, va, pa, flags).0;
            let word = Slot2View::Word(mmu::block_word(pa, flags));
            assert(table_shaped(t.tables[i]));
            lemma_with_slot2(t.tables[i], va, word);
            assert(n.tables =~= t.tables.update(i, t.tables[i].with_slot2(va, word)));
            assert forall|h: Holder| (#[trigger] table_pages(n.tables, h)).pages
                != 0 implies table_pages(n.tables, h) == table_pages(t.tables, h) by {}
            assert forall|h: Holder| (#[trigger] held(n, spare, h)).pages != 0 implies held(
                n,
                spare,
                h,
            ) == held(t, spare, h) by {
                assert(table_pages(n.tables, h).pages != 0 ==> table_pages(n.tables, h)
                    == table_pages(t.tables, h));
            }
            lemma_less(t, n, spare);
            assert forall|k: int| 0 <= k < n.tables.len() implies table_shaped(
                #[trigger] n.tables[k],
            ) by {
                if k != i {
                    assert(table_shaped(t.tables[k]));
                }
            }
        }
    }
}

pub(crate) proof fn lemma_map_blocks(
    s: MachineView,
    spare: Seq<FreeRange>,
    root: u64,
    va: int,
    flags: u64,
    skip_start: int,
    skip_end: int,
    n: int,
)
    requires
        sound(s, spare),
    ensures
        sound(s.map_blocks(root, va, flags, skip_start, skip_end, n).0, spare),
    decreases n,
{
    reveal(MachineView::map_blocks);
    reveal(sound);
    if n > 0 {
        lemma_map_blocks(s, spare, root, va, flags, skip_start, skip_end, n - 1);
        let t = s.map_blocks(root, va, flags, skip_start, skip_end, n - 1).0;
        let at = va + (n - 1) * 0x20_0000;
        lemma_map_block(t, spare, root, at, at as u64, flags);
    }
}

pub(crate) proof fn lemma_map_devices(s: MachineView, spare: Seq<FreeRange>, root: u64, n: int)
    requires
        sound(s, spare),
    ensures
        sound(s.map_devices(root, n).0, spare),
    decreases n,
{
    reveal(sound);
    if n > 0 {
        lemma_map_devices(s, spare, root, n - 1);
        let block = s.k.spaces.device_blocks@[n - 1];
        lemma_map_block(
            s.map_devices(root, n - 1).0,
            spare,
            root,
            block as int,
            block,
            mmu::MMU_DEV,
        );
    }
}

pub(crate) proof fn lemma_new_table(s: MachineView, spare: Seq<FreeRange>)
    requires
        sound(s, spare),
    ensures
        sound(s.new_table().0, spare),
{
    reveal(MachineView::new_table);
    reveal(sound);
    lemma_pages_alloc(s, spare, 1);
    let (mem, page) = s.k.mem.page_alloc();
    let t = s.with_mem(mem);
    if let Some(root) = page {
        let n = s.new_table().0;
        let before = spare.push(run(root, 1));
        let last = Holder::Spare(spare.len() as int);
        let place = Holder::Root(s.tables.len() as int);
        let from = |h: Holder|
            if h == place {
                last
            } else {
                h
            };
        assert forall|h: Holder| (#[trigger] held(n, spare, h)).pages != 0 implies held(
            n,
            spare,
            h,
        ) == held(t, before, from(h)) by {}
        assert forall|g: Holder, h: Holder|
            g != h && (#[trigger] held(n, spare, g)).pages != 0 && (#[trigger] held(
                n,
                spare,
                h,
            )).pages != 0 implies from(g) != from(h) by {
            assert(held(n, spare, last) == nothing());
        }
        lemma_moves(t, before, n, spare, from, |h: Holder| false);
        assert forall|h: Holder| (#[trigger] table_pages(n.tables, h)).pages
            != 0 implies table_pages(n.tables, h) == table_pages(s.tables, h) || table_pages(
            n.tables,
            h,
        ) == run(root, 1) by {}
        assert forall|k: int| 0 <= k < n.tables.len() implies table_shaped(
            #[trigger] n.tables[k],
        ) by {
            if k < s.tables.len() {
                assert(table_shaped(s.tables[k]));
            }
        }
    }
}

/// The holders of the pages of third levels, in the order of `l3_pages`.
spec fn l3_keys(l2: mmu::Level2View, t: int, i: int, j: int) -> Seq<Holder>
    decreases j,
{
    if j <= 0 {
        Seq::empty()
    } else {
        match l2.slots[j - 1] {
            Slot2View::Word(_) => l3_keys(l2, t, i, j - 1),
            Slot2View::Table(_) => l3_keys(l2, t, i, j - 1).push(Holder::Level3(t, i, j - 1)),
        }
    }
}

/// The holders of the pages of lower levels, in the order of `lower_pages`.
spec fn lower_keys(table: TableView, t: int, i: int) -> Seq<Holder>
    decreases i,
{
    if i <= 0 {
        Seq::empty()
    } else {
        match table.slots[i - 1] {
            Slot1View::Word(_) => lower_keys(table, t, i - 1),
            Slot1View::Table(l2) => (lower_keys(table, t, i - 1) + l3_keys(
                l2,
                t,
                i - 1,
                512,
            )).push(Holder::Level2(t, i - 1)),
        }
    }
}

spec fn all_keys(table: TableView, t: int) -> Seq<Holder> {
    lower_keys(table, t, 512).push(Holder::Root(t))
}

/// `key` stands for a lower level of table `t` with its place in the first level below `i`, and
/// holds the page `pa`.
spec fn lower_key(table: TableView, t: int, i: int, key: Holder, pa: u64) -> bool {
    match key {
        Holder::Level2(u, a) => u == t && 0 <= a < i && level2(table, a) == run(pa, 1),
        Holder::Level3(u, a, b) => u == t && 0 <= a < i && level3(table, a, b) == run(pa, 1),
        _ => false,
    }
}

proof fn lemma_l3_keys(table: TableView, t: int, i: int, j: int)
    requires
        0 <= i < 512,
        0 <= j <= 512,
        table.slots[i] is Table,
    ensures
        ({
            let l2 = table.slots[i]->Table_0;
            let keys = l3_keys(l2, t, i, j);
            let pages = l2.l3_pages(j);
            &&& keys.len() == pages.len()
            &&& forall|k: int|
                0 <= k < keys.len() ==> (#[trigger] keys[k]) is Level3 && keys[k]->Level3_0 == t
                    && keys[k]->Level3_1 == i && 0 <= keys[k]->Level3_2 < j && level3(
                    table,
                    i,
                    keys[k]->Level3_2,
                ) == run(pages[k], 1)
            &&& forall|k: int, l: int|
                0 <= k < l < keys.len() ==> #[trigger] keys[k] != #[trigger] keys[l]
        }),
    decreases j,
{
    if j > 0 {
        lemma_l3_keys(table, t, i, j - 1);
    }
}

proof fn lemma_lower_keys(table: TableView, t: int, i: int)
    requires
        0 <= i <= 512,
    ensures
        ({
            let keys = lower_keys(table, t, i);
            let pages = table.lower_pages(i);
            &&& keys.len() == pages.len()
            &&& forall|k: int|
                0 <= k < keys.len() ==> lower_key(table, t, i, #[trigger] keys[k], pages[k])
            &&& forall|k: int, l: int|
                0 <= k < l < keys.len() ==> #[trigger] keys[k] != #[trigger] keys[l]
        }),
    decreases i,
{
    if i > 0 {
        lemma_lower_keys(table, t, i - 1);
        if let Slot1View::Table(l2) = table.slots[i - 1] {
            lemma_l3_keys(table, t, i - 1, 512);
            let before = lower_keys(table, t, i - 1);
            let mid = l3_keys(l2, t, i - 1, 512);
            let keys = lower_keys(table, t, i);
            let pages = table.lower_pages(i);
            let a = before.len() as int;
            let b = a + mid.len();
            assert forall|k: int| 0 <= k < keys.len() implies lower_key(
                table,
                t,
                i,
                #[trigger] keys[k],
                pages[k],
            ) by {
                if k < a {
                    assert(keys[k] == before[k]);
                    assert(lower_key(table, t, i - 1, before[k], table.lower_pages(i - 1)[k]));
                } else if k < b {
                    assert(keys[k] == mid[k - a]);
                }
            }
            assert forall|k: int, l: int| 0 <= k < l < keys.len() implies #[trigger] keys[k]
                != #[trigger] keys[l] by {
                if k < a {
                    assert(keys[k] == before[k]);
                    assert(lower_key(table, t, i - 1, before[k], table.lower_pages(i - 1)[k]));
                    if l < a {
                        assert(keys[l] == before[l]);
                    } else if l < b {
                        assert(keys[l] == mid[l - a]);
                    }
                } else if k < b {
                    assert(keys[k] == mid[k - a]);
                    if l < b {
                        assert(keys[l] == mid[l - a]);
                    }
                }
            }
        }
    }
}

spec fn single_runs(pages: Seq<u64>) -> Seq<(u64, u64)> {
    Seq::new(pages.len(), |k: int| (pages[k], 1u64))
}

proof fn lemma_freed_each(mem: PhysicalMemory, pages: Seq<u64>, k: int)
    requires
        0 <= k <= pages.len(),
    ensures
        mem.freed_each(pages, k) == mem.freed_runs(single_runs(pages), k),
    decreases k,
{
    if k > 0 {
        lemma_freed_each(mem, pages, k - 1);
    }
}

/// The place of a table before the one at place `i` was removed.
spec fn before_removal(t: int, i: int) -> int {
    if t < i {
        t
    } else {
        t + 1
    }
}

/// A table goes, and its pages come back.
pub(crate) proof fn lemma_drop_table(s: MachineView, root: u64)
    requires
        sound(s, Seq::empty()),
        s.drop_table(root).1 is None,
    ensures
        sound(s.drop_table(root).0, Seq::empty()),
        s.drop_table(root).0.k == (Kernel { mem: s.drop_table(root).0.k.mem, ..s.k }),
{
    reveal(sound);
    let none: Seq<FreeRange> = Seq::empty();
    mmu::lemma_table_of(s.tables, root, 0);
    if let Some(i) = mmu::table_of(s.tables, root, 0) {
        let table = s.tables[i];
        let pages = table.all_pages();
        let keys = all_keys(table, i);
        let count = pages.len() as int;
        lemma_lower_keys(table, i, 512);
        let spare = Seq::new(pages.len(), |k: int| run(pages[k], 1));
        let t = MachineView { tables: s.tables.remove(i), ..s };
        let from = |h: Holder|
            match h {
                Holder::Spare(k) => keys[k],
                Holder::Root(u) => Holder::Root(before_removal(u, i)),
                Holder::Level2(u, a) => Holder::Level2(before_removal(u, i), a),
                Holder::Level3(u, a, b) => Holder::Level3(before_removal(u, i), a, b),
                _ => h,
            };
        assert forall|k: int| 0 <= k < count implies table_pages(s.tables, #[trigger] keys[k])
            == spare[k] by {
            if k < count - 1 {
                assert(keys[k] == lower_keys(table, i, 512)[k]);
                assert(lower_key(table, i, 512, keys[k], table.lower_pages(512)[k]));
            }
        }
        assert forall|h: Holder| (#[trigger] table_pages(t.tables, h)).pages != 0 implies
            table_pages(t.tables, h) == table_pages(s.tables, from(h)) by {}
        assert forall|h: Holder| (#[trigger] held(t, spare, h)).pages != 0 implies held(
            t,
            spare,
            h,
        ) == held(s, none, from(h)) by {
            match h {
                Holder::Spare(k) => {
                    assert(table_pages(s.tables, keys[k]) == spare[k]);
                },
                Holder::Root(_) | Holder::Level2(_, _) | Holder::Level3(_, _, _) => {
                    assert(held(t, spare, h) == table_pages(t.tables, h));
                },
                _ => {},
            }
        }
        assert forall|g: Holder, h: Holder|
            g != h && (#[trigger] held(t, spare, g)).pages != 0 && (#[trigger] held(
                t,
                spare,
                h,
            )).pages != 0 implies from(g) != from(h) by {
            lemma_removed_apart(table, i, g, h);
        }
        lemma_moves(s, none, t, spare, from, |h: Holder| false);
        assert forall|k: int| 0 <= k < t.tables.len() implies table_shaped(
            #[trigger] t.tables[k],
        ) by {
            assert(t.tables[k] == s.tables[before_removal(k, i)]);
        }
        assert(sound(t, spare));
        let runs = single_runs(pages);
        assert forall|k: int| 0 <= k < runs.len() implies spare[k] == physical::range_of(
            #[trigger] runs[k],
        ) && PhysicalMemory::returnable(runs[k].0, runs[k].1) by {
            assert(table_pages(s.tables, keys[k]) == spare[k]);
        }
        lemma_freed_each(s.k.mem, pages, count);
        lemma_released(t, spare, runs);
        assert(t.released(runs).0 == s.drop_table(root).0);
    }
}

/// The holders of the pages of a table that goes differ from each other and from all others.
proof fn lemma_removed_apart(table: TableView, i: int, g: Holder, h: Holder)
    requires
        g != h,
        g is Spare ==> 0 <= g->Spare_0 < all_keys(table, i).len(),
        h is Spare ==> 0 <= h->Spare_0 < all_keys(table, i).len(),
    ensures
        ({
            let keys = all_keys(table, i);
            let from = |h: Holder|
                match h {
                    Holder::Spare(k) => keys[k],
                    Holder::Root(u) => Holder::Root(before_removal(u, i)),
                    Holder::Level2(u, a) => Holder::Level2(before_removal(u, i), a),
                    Holder::Level3(u, a, b) => Holder::Level3(before_removal(u, i), a, b),
                    _ => h,
                };
            from(g) != from(h)
        }),
{
    let keys = all_keys(table, i);
    let lower = lower_keys(table, i, 512);
    lemma_lower_keys(table, i, 512);
    assert forall|k: int| 0 <= k < keys.len() implies match (#[trigger] keys[k]) {
        Holder::Root(u) => u == i && k == lower.len(),
        Holder::Level2(u, _) => u == i && k < lower.len(),
        Holder::Level3(u, _, _) => u == i && k < lower.len(),
        _ => false,
    } by {
        if k < lower.len() {
            assert(keys[k] == lower[k]);
            assert(lower_key(table, i, 512, lower[k], table.lower_pages(512)[k]));
        }
    }
    if g is Spare && h is Spare {
        let a = g->Spare_0;
        let b = h->Spare_0;
        assert(keys[a] != keys[b]) by {
            if a < lower.len() && b < lower.len() {
                assert(keys[a] == lower[a] && keys[b] == lower[b]);
                if a < b {
                    assert(lower[a] != lower[b]);
                } else {
                    assert(lower[b] != lower[a]);
                }
            }
        }
    } else if g is Spare {
        assert(keys[g->Spare_0] == keys[g->Spare_0]);
    } else if h is Spare {
        assert(keys[h->Spare_0] == keys[h->Spare_0]);
    }
}

/// Objects keep their pages or lose them; memory and tables are as they were.
pub(crate) proof fn lemma_objects(s: MachineView, n: MachineView, spare: Seq<FreeRange>)
    requires
        sound(s, spare),
        n.k.mem == s.k.mem,
        n.tables == s.tables,
        forall|h: Holder|
            (#[trigger] object_pages(n.k, h)).pages != 0 ==> object_pages(n.k, h) == object_pages(
                s.k,
                h,
            ),
    ensures
        sound(n, spare),
{
    reveal(sound);
    assert forall|h: Holder| (#[trigger] held(n, spare, h)).pages != 0 implies held(n, spare, h)
        == held(s, spare, h) by {
        assert(object_pages(n.k, h).pages != 0 ==> object_pages(n.k, h) == object_pages(s.k, h));
    }
    lemma_less(s, n, spare);
}

/// An object of the kernel, not a table or a run on its way.
pub open spec fn is_object(h: Holder) -> bool {
    !(h is Root) && !(h is Level2) && !(h is Level3) && !(h is Spare)
}

/// The runs on their way settle in objects, one each.
pub(crate) proof fn lemma_settled(
    s: MachineView,
    n: MachineView,
    spare: Seq<FreeRange>,
    places: Seq<Holder>,
)
    requires
        sound(s, spare),
        places.len() == spare.len(),
        n.k.mem == s.k.mem,
        n.tables == s.tables,
        forall|k: int|
            0 <= k < places.len() ==> is_object(#[trigger] places[k]) && (object_pages(
                n.k,
                places[k],
            ).pages != 0 ==> object_pages(n.k, places[k]) == spare[k]),
        forall|k: int, l: int|
            0 <= k < l < places.len() ==> #[trigger] places[k] != #[trigger] places[l],
        forall|h: Holder|
            (#[trigger] object_pages(n.k, h)).pages != 0 && !places.contains(h) ==> object_pages(
                n.k,
                h,
            ) == object_pages(s.k, h),
    ensures
        sound(n, Seq::empty()),
{
    reveal(sound);
    let none: Seq<FreeRange> = Seq::empty();
    let from = |h: Holder|
        if places.contains(h) {
            Holder::Spare(places.index_of(h))
        } else {
            h
        };
    assert forall|h: Holder| (#[trigger] held(n, none, h)).pages != 0 implies held(n, none, h)
        == held(s, spare, from(h)) by {
        if places.contains(h) {
            let k = places.index_of(h);
            assert(0 <= k < places.len() && places[k] == h);
            assert(object_pages(n.k, places[k]).pages != 0);
        } else {
            assert(object_pages(n.k, h).pages != 0 ==> object_pages(n.k, h) == object_pages(
                s.k,
                h,
            ));
        }
    }
    assert forall|g: Holder, h: Holder|
        g != h && (#[trigger] held(n, none, g)).pages != 0 && (#[trigger] held(n, none, h)).pages
            != 0 implies from(g) != from(h) by {
        if places.contains(g) && places.contains(h) {
            let k = places.index_of(g);
            let l = places.index_of(h);
            assert(places[k] == g && places[l] == h);
        }
    }
    lemma_moves(s, spare, n, none, from, |h: Holder| false);
}

/// Pages of objects come back, and the objects that held them do not any more.
pub(crate) proof fn lemma_given_back(
    s: MachineView,
    n: MachineView,
    places: Seq<Holder>,
    runs: Seq<(u64, u64)>,
)
    requires
        sound(s, Seq::empty()),
        places.len() == runs.len(),
        forall|k: int|
            0 <= k < places.len() ==> is_object(#[trigger] places[k]) && object_pages(
                s.k,
                places[k],
            ) == physical::range_of(runs[k]) && PhysicalMemory::returnable(runs[k].0, runs[k].1),
        forall|k: int, l: int|
            0 <= k < l < places.len() ==> #[trigger] places[k] != #[trigger] places[l],
        !s.k.mem.freed_runs(runs, runs.len() as int).1,
        n.k.mem == s.k.mem.freed_runs(runs, runs.len() as int).0,
        shaped(n.tables),
        forall|h: Holder| #[trigger] table_pages(n.tables, h) == table_pages(s.tables, h),
        forall|h: Holder|
            (#[trigger] object_pages(n.k, h)).pages != 0 ==> object_pages(n.k, h) == object_pages(
                s.k,
                h,
            ) && !places.contains(h),
    ensures
        sound(n, Seq::empty()),
{
    reveal(sound);
    let none: Seq<FreeRange> = Seq::empty();
    assert forall|k: int, a: int|
        0 <= k < runs.len() && #[trigger] physical::range_of(runs[k]).covers(
            a,
        ) implies !s.k.mem.is_free(a) by {
        assert(is_object(places[k]));
        assert(held(s, none, places[k]).covers(a));
    }
    assert forall|k: int, l: int| 0 <= k < l < runs.len() implies physical::range_of(
        #[trigger] runs[k],
    ).apart(physical::range_of(#[trigger] runs[l])) by {
        assert(places[k] != places[l]);
        assert(is_object(places[k]) && is_object(places[l]));
        assert(held(s, none, places[k]).apart(held(s, none, places[l])));
    }
    assert forall|k: int| 0 <= k < runs.len() implies PhysicalMemory::returnable(
        (#[trigger] runs[k]).0,
        runs[k].1,
    ) by {
        assert(is_object(places[k]));
    }
    physical::law_runs_freed(s.k.mem, runs, runs.len() as int);
    let gone = |h: Holder| places.contains(h);
    assert forall|a: int| #[trigger] n.k.mem.is_free(a) implies s.k.mem.is_free(a) || exists|
        g: Holder,
    |
        gone(g) && #[trigger] held(s, none, g).covers(a) by {
        if !s.k.mem.is_free(a) {
            let k = choose|k: int|
                0 <= k < runs.len() && #[trigger] physical::range_of(runs[k]).covers(a);
            assert(is_object(places[k]));
            assert(gone(places[k]) && held(s, none, places[k]).covers(a));
        }
    }
    assert forall|h: Holder| (#[trigger] held(n, none, h)).pages != 0 implies held(n, none, h)
        == held(s, none, h) && !gone(h) by {
        if is_object(h) {
            assert(object_pages(n.k, h).pages != 0);
        } else {
            assert(table_pages(n.tables, h) == table_pages(s.tables, h));
            if places.contains(h) {
                let k = places.index_of(h);
                assert(is_object(places[k]));
            }
        }
    }
    lemma_moves(s, none, n, none, |h: Holder| h, gone);
}

/// Unmapping changes descriptors only: every table keeps its pages.
pub(crate) proof fn lemma_unmap_tables(s: MachineView, root: u64, va: int, n: int)
    requires
        shaped(s.tables),
    ensures
        shaped(s.unmap_run(root, va, n).0.tables),
        s.unmap_run(root, va, n).0.k == s.k,
        forall|h: Holder| #[trigger] table_pages(s.unmap_run(root, va, n).0.tables, h)
            == table_pages(s.tables, h),
    decreases n,
{
    reveal(MachineView::unmap_run);
    if n > 0 {
        lemma_unmap_tables(s, root, va, n - 1);
        let t = s.unmap_run(root, va, n - 1).0;
        let u = s.unmap_run(root, va, n).0;
        let at = va + (n - 1) * 4096;
        mmu::lemma_table_of(t.tables, root, 0);
        if let Some(i) = mmu::table_of(t.tables, root, 0) {
            assert(table_shaped(t.tables[i]));
            lemma_with_leaf(t.tables[i], at, 0);
            assert forall|h: Holder| #[trigger] table_pages(u.tables, h) == table_pages(
                s.tables,
                h,
            ) by {
                assert(table_pages(t.tables, h) == table_pages(s.tables, h));
            }
            assert forall|k: int| 0 <= k < u.tables.len() implies table_shaped(
                #[trigger] u.tables[k],
            ) by {
                if k != i {
                    assert(table_shaped(t.tables[k]));
                }
            }
        }
    }
}

} // verus!
