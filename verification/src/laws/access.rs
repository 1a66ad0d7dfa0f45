//! What a task can reach once memory was mapped for it: which pages, in which order, and what it
//! may do with them.
use crate::machine::MachineView;
use crate::memory::mmu;
use crate::memory::physical::PHYSICAL_LIMIT;
use vstd::prelude::*;

verus! {

/// The kinds of memory that a mapping can choose.
pub const CACHED: u64 = 0;

pub const DEVICE: u64 = 1;

pub const UNCACHED: u64 = 2;

/// At `va` and behind it, under `root`, EL0 finds the `n` physical pages from `pa` on, in order. It
/// can read them, and write or execute them exactly if this says so.
pub open spec fn mapped_as(
    t: MachineView,
    root: u64,
    va: int,
    pa: int,
    n: int,
    write: bool,
    execute: bool,
    kind: u64,
) -> bool {
    forall|a: int|
        va <= a < va + n * 4096 ==> {
            &&& #[trigger] t.page_at(root, a) is Some
            &&& t.page_at(root, a)->0 & 0xffff_ffff_f000 == pa + (a - va) / 4096 * 4096
            &&& mmu::el0_may(t.page_at(root, a)->0, true, write, execute)
            &&& mmu::memory_type(t.page_at(root, a)->0) == kind
            &&& t.user_readable(root, a, 1)
            &&& t.user_writable(root, a, 1) == write
            &&& t.user_executable(root, a) == execute
        }
}

/// Nothing is mapped from `va` on for `n` pages.
pub open spec fn nothing_at(s: MachineView, root: u64, va: int, n: int) -> bool {
    forall|a: int| va <= a < va + n * 4096 ==> #[trigger] s.page_at(root, a) is None
}

/// Between `s` and `t` no translation changed but of the `n` pages from `va` on under `root`.
pub open spec fn only_run_changed(s: MachineView, t: MachineView, root: u64, va: int, n: int)
    -> bool {
    forall|r: u64, a: int|
        0 <= a < 0x80_0000_0000 && !(r == root && va <= a < va + n * 4096) ==> #[trigger] t.page_at(
            r,
            a,
        ) == s.page_at(r, a)
}

/// Between `s` and `t` no translation changed.
pub open spec fn same_pages(s: MachineView, t: MachineView) -> bool {
    forall|r: u64, a: int| #[trigger] t.page_at(r, a) == s.page_at(r, a)
}

/// What EL0 may do at an address depends on the descriptor there alone.
pub(crate) proof fn lemma_same_access(s: MachineView, t: MachineView, root: u64, a: int)
    requires
        s.page_at(root, a) == t.page_at(root, a),
    ensures
        s.user_readable(root, a, 1) == t.user_readable(root, a, 1),
        s.user_writable(root, a, 1) == t.user_writable(root, a, 1),
        s.user_executable(root, a) == t.user_executable(root, a),
{
    mmu::law_access_is_in_descriptor(s, root, a);
    mmu::law_access_is_in_descriptor(t, root, a);
}

/// A mapped run stays as it is where its pages do.
pub(crate) proof fn lemma_mapped_stays(
    s: MachineView,
    t: MachineView,
    root: u64,
    va: int,
    pa: int,
    n: int,
    write: bool,
    execute: bool,
    kind: u64,
)
    requires
        mapped_as(s, root, va, pa, n, write, execute, kind),
        forall|a: int|
            va <= a < va + n * 4096 ==> #[trigger] t.page_at(root, a) == s.page_at(root, a),
    ensures
        mapped_as(t, root, va, pa, n, write, execute, kind),
{
    assert forall|a: int| va <= a < va + n * 4096 implies {
        &&& #[trigger] t.page_at(root, a) is Some
        &&& t.page_at(root, a)->0 & 0xffff_ffff_f000 == pa + (a - va) / 4096 * 4096
        &&& mmu::el0_may(t.page_at(root, a)->0, true, write, execute)
        &&& mmu::memory_type(t.page_at(root, a)->0) == kind
        &&& t.user_readable(root, a, 1)
        &&& t.user_writable(root, a, 1) == write
        &&& t.user_executable(root, a) == execute
    } by {
        assert(s.page_at(root, a) is Some);
        lemma_same_access(s, t, root, a);
    }
}

/// What each preset gives EL0.
pub open spec fn preset(flags: u64, write: bool, execute: bool, kind: u64) -> bool {
    ||| flags == mmu::MMU_USER_RX && !write && execute && kind == CACHED
    ||| flags == mmu::MMU_USER_RW && write && !execute && kind == CACHED
    ||| flags == mmu::MMU_USER_RO && !write && !execute && kind == CACHED
    ||| flags == mmu::MMU_USER_DEV && write && !execute && kind == DEVICE
    ||| flags == mmu::MMU_USER_DMA && write && !execute && kind == UNCACHED
}

/// A run that is translated with a preset is mapped as the preset says.
pub(crate) proof fn lemma_mapped_as(
    t: MachineView,
    root: u64,
    va: int,
    pa: int,
    n: int,
    flags: u64,
    write: bool,
    execute: bool,
    kind: u64,
)
    requires
        preset(flags, write, execute, kind),
        0 <= pa,
        pa % 4096 == 0,
        pa + n * 4096 <= PHYSICAL_LIMIT,
        mmu::translates(t, root, va, pa, n, flags),
    ensures
        mapped_as(t, root, va, pa, n, write, execute, kind),
{
    assert forall|a: int| va <= a < va + n * 4096 implies {
        &&& #[trigger] t.page_at(root, a) is Some
        &&& t.page_at(root, a)->0 & 0xffff_ffff_f000 == pa + (a - va) / 4096 * 4096
        &&& mmu::el0_may(t.page_at(root, a)->0, true, write, execute)
        &&& mmu::memory_type(t.page_at(root, a)->0) == kind
        &&& t.user_readable(root, a, 1)
        &&& t.user_writable(root, a, 1) == write
        &&& t.user_executable(root, a) == execute
    } by {
        assert(0 <= (a - va) / 4096 < n);
        let page = (pa + (a - va) / 4096 * 4096) as u64;
        assert(page % 4096 == 0);
        assert(t.page_at(root, a) == Some(mmu::page_word(page, flags)));
        mmu::law_presets_mean(page);
        mmu::law_access_is_in_descriptor(t, root, a);
    }
}

/// A run that was mapped where all of it was free.
pub(crate) proof fn lemma_map_checked(
    s: MachineView,
    root: u64,
    va: int,
    pa: int,
    flags: u64,
    n: int,
    write: bool,
    execute: bool,
    kind: u64,
)
    requires
        s.paging_ok(),
        va % 4096 == 0,
        0 <= va,
        0 <= n,
        va + n * 4096 <= 0x80_0000_0000,
        0 <= pa,
        pa % 4096 == 0,
        pa + n * 4096 <= PHYSICAL_LIMIT,
        preset(flags, write, execute, kind),
    ensures
        ({
            let (t, error) = s.map_checked(root, va, pa, flags, n);
            &&& t.paging_ok()
            &&& if error is None {
                &&& mapped_as(t, root, va, pa, n, write, execute, kind)
                &&& nothing_at(s, root, va, n)
                &&& only_run_changed(s, t, root, va, n)
            } else {
                same_pages(s, t)
            }
        }),
{
    let (t, error) = s.map_checked(root, va, pa, flags, n);
    mmu::law_map_checked(s, root, va, pa, flags, n);
    if error is None {
        mmu::lemma_translates(t, root, va, pa, n, flags);
        lemma_mapped_as(t, root, va, pa, n, flags, write, execute, kind);
        assert forall|a: int| va <= a < va + n * 4096 implies #[trigger] s.page_at(root, a)
            is None by {
            mmu::lemma_run_range(a, va, n);
            let j = (a - va) / 4096;
            mmu::lemma_same_page_at(s, root, a, mmu::page_va(va, j));
            assert(s.page_at(root, va + j * 4096) is None);
        }
        assert forall|r: u64, a: int|
            0 <= a < 0x80_0000_0000 && !(r == root && va <= a < va + n
                * 4096) implies #[trigger] t.page_at(r, a) == s.page_at(r, a) by {
            mmu::lemma_run_range(a, va, n);
        }
    }
}

/// A run that was mapped whatever was there.
pub(crate) proof fn lemma_map_run(
    s: MachineView,
    root: u64,
    va: int,
    pa: int,
    flags: u64,
    n: int,
    write: bool,
    execute: bool,
    kind: u64,
)
    requires
        s.paging_ok(),
        va % 4096 == 0,
        0 <= va,
        0 <= n,
        va + n * 4096 <= 0x80_0000_0000,
        0 <= pa,
        pa % 4096 == 0,
        pa + n * 4096 <= PHYSICAL_LIMIT,
        preset(flags, write, execute, kind),
    ensures
        ({
            let (t, fault) = s.map_run(root, va, pa, flags, n);
            &&& t.paging_ok()
            &&& fault is None ==> mapped_as(t, root, va, pa, n, write, execute, kind)
            &&& only_run_changed(s, t, root, va, n)
        }),
{
    let (t, fault) = s.map_run(root, va, pa, flags, n);
    mmu::law_map_run(s, root, va, pa, flags, n);
    if fault is None {
        mmu::lemma_translates(t, root, va, pa, n, flags);
        lemma_mapped_as(t, root, va, pa, n, flags, write, execute, kind);
    }
    assert forall|r: u64, a: int|
        0 <= a < 0x80_0000_0000 && !(r == root && va <= a < va + n
            * 4096) implies #[trigger] t.page_at(r, a) == s.page_at(r, a) by {
        mmu::lemma_run_range(a, va, n);
    }
}

/// A run that was unmapped.
pub(crate) proof fn lemma_unmap_run(s: MachineView, root: u64, va: int, n: int)
    requires
        s.paging_ok(),
        va % 4096 == 0,
        0 <= va,
        0 <= n,
        va + n * 4096 <= 0x80_0000_0000,
    ensures
        ({
            let t = s.unmap_run(root, va, n).0;
            &&& t.paging_ok()
            &&& nothing_at(t, root, va, n)
            &&& only_run_changed(s, t, root, va, n)
        }),
{
    let t = s.unmap_run(root, va, n).0;
    mmu::law_unmap_run(s, root, va, n);
    assert forall|a: int| va <= a < va + n * 4096 implies #[trigger] t.page_at(root, a) is None by {
        mmu::lemma_run_range(a, va, n);
    }
    assert forall|r: u64, a: int|
        0 <= a < 0x80_0000_0000 && !(r == root && va <= a < va + n
            * 4096) implies #[trigger] t.page_at(r, a) == s.page_at(r, a) by {
        mmu::lemma_run_range(a, va, n);
    }
}

} // verus!
