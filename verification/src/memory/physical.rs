//! The allocator of 4 KiB physical pages.
//!
//! It keeps a table of free ranges and touches no hardware: it only accounts for which
//! pages are free. Pages are cut from the head of the first range that is large enough;
//! when a range comes back, ranges are merged until no two of them touch.
use crate::util::ArrayUpdate;
use crate::util::{is_power_of_two, lemma_round_up};
use vstd::prelude::*;

verus! {

pub const MAX_RANGES: usize = 64;

/// Physical addresses have at most 48 bits.
pub const PHYSICAL_LIMIT: u64 = 0x1_0000_0000_0000;

/// One contiguous free piece of memory.
#[derive(Clone, Copy, Debug, PartialEq, Eq, Structural)]
pub struct FreeRange {
    /// Physical address of the first page.
    pub base: u64,
    /// Number of free pages.
    pub pages: u64,
}

#[derive(Clone, Copy)]
#[verifier::ext_equal]
pub struct PhysicalMemory {
    pub ranges: [FreeRange; 64],
    pub count: usize,
}

/// The table of free ranges had no entry left for a range that was given back.
#[derive(Clone, Copy, Debug, PartialEq, Eq, Structural)]
pub struct RangeTableFull;

impl FreeRange {
    /// The address behind the last page.
    pub open spec fn end(self) -> int {
        self.base + self.pages * 4096
    }

    /// The range starts on a page and stays below the physical limit.
    pub open spec fn ok(self) -> bool {
        &&& self.base % 4096 == 0
        &&& self.end() <= PHYSICAL_LIMIT
    }

    /// The page at `address` belongs to the range.
    pub open spec fn covers(self, address: int) -> bool {
        self.base <= address < self.end()
    }

    /// The two ranges overlap or one begins where the other ends.
    pub open spec fn touches(self, other: FreeRange) -> bool {
        self.base <= other.end() && other.base <= self.end()
    }

    /// The two ranges have no page in common.
    pub open spec fn apart(self, other: FreeRange) -> bool {
        self.end() <= other.base || other.end() <= self.base || self.pages == 0 || other.pages == 0
    }

    /// The smallest range that holds both.
    pub open spec fn hull(self, other: FreeRange) -> FreeRange {
        let start = if self.base < other.base {
            self.base
        } else {
            other.base
        };
        let end = if self.end() > other.end() {
            self.end()
        } else {
            other.end()
        };
        FreeRange { base: start, pages: ((end - start) / 4096) as u64 }
    }
}

impl PhysicalMemory {
    /// Every recorded range is aligned and in bounds.
    pub open spec fn wf(self) -> bool {
        &&& self.count <= 64
        &&& forall|i: int| 0 <= i < self.count ==> (#[trigger] self.ranges@[i]).ok()
    }

    /// No page is recorded twice.
    pub open spec fn disjoint(self) -> bool {
        forall|i: int, j: int|
            0 <= i < j < self.count ==> (#[trigger] self.ranges@[i]).apart(
                #[trigger] self.ranges@[j],
            )
    }

    /// The byte at `address` lies in a free page.
    pub open spec fn is_free(self, address: int) -> bool {
        exists|i: int| 0 <= i < self.count && (#[trigger] self.ranges@[i]).covers(address)
    }

    /// The first range with at least `n` pages, at place `from` or later.
    pub open spec fn first_fit(self, n: u64, from: int) -> Option<int>
        decreases self.count - from,
    {
        if from < 0 || from >= self.count {
            None
        } else if self.ranges@[from].pages >= n {
            Some(from)
        } else {
            self.first_fit(n, from + 1)
        }
    }

    /// The table after `n` pages were cut from the head of range `i`.
    pub open spec fn cut(self, i: int, n: u64) -> PhysicalMemory {
        let r = self.ranges@[i];
        PhysicalMemory {
            ranges: self.ranges.upd(
                i,
                FreeRange { base: (r.base + n * 4096) as u64, pages: (r.pages - n) as u64 },
            ),
            ..self
        }
    }

    /// Where the first fitting run of `n` pages begins in range `i`.
    pub open spec fn aligned_start(self, i: int, align_pages: u64) -> int {
        crate::util::round_up(self.ranges@[i].base as int, align_pages * 4096)
    }

    /// Number of pages before the aligned start of range `i`.
    pub open spec fn prefix(self, i: int, align_pages: u64) -> int {
        (self.aligned_start(i, align_pages) - self.ranges@[i].base) / 4096
    }

    /// The first range, at place `from` or later, that holds an aligned run of `n` pages.
    pub open spec fn first_aligned_fit(self, n: u64, align_pages: u64, from: int) -> Option<int>
        decreases self.count - from,
    {
        if from < 0 || from >= self.count {
            None
        } else if self.prefix(from, align_pages) + n <= self.ranges@[from].pages {
            Some(from)
        } else {
            self.first_aligned_fit(n, align_pages, from + 1)
        }
    }

    /// What an aligned allocation does: the new table, and the address if it succeeds.
    ///
    /// When pages are left on both sides of the run and the table is full, the pages from the
    /// run onwards drop out of the table and nothing is handed out.
    #[verifier::opaque]
    pub open spec fn aligned_alloc(self, n: u64, align_pages: u64) -> (
        PhysicalMemory,
        Option<u64>,
    ) {
        if n == 0 || !crate::util::power_of_two(align_pages as int) {
            (self, None)
        } else {
            match self.first_aligned_fit(n, align_pages, 0) {
                None => (self, None),
                Some(i) => {
                    let start = self.aligned_start(i, align_pages);
                    let prefix = self.prefix(i, align_pages);
                    let suffix = self.ranges@[i].pages - prefix - n;
                    let rest = FreeRange { base: (start + n * 4096) as u64, pages: suffix as u64 };
                    if prefix == 0 {
                        (
                            PhysicalMemory { ranges: self.ranges.upd(i, rest), ..self },
                            Some(start as u64),
                        )
                    } else {
                        let head = FreeRange {
                            base: self.ranges@[i].base,
                            pages: prefix as u64,
                        };
                        let kept = PhysicalMemory { ranges: self.ranges.upd(i, head), ..self };
                        if suffix == 0 {
                            (kept, Some(start as u64))
                        } else if self.count >= 64 {
                            (kept, None)
                        } else {
                            (
                                PhysicalMemory {
                                    ranges: kept.ranges.upd(self.count as int, rest),
                                    count: (self.count + 1) as usize,
                                },
                                Some(start as u64),
                            )
                        }
                    }
                },
            }
        }
    }

    /// What taking one page does.
    pub open spec fn page_alloc(self) -> (PhysicalMemory, Option<u64>) {
        self.pages_alloc(1)
    }

    /// What taking `n` contiguous pages does.
    #[verifier::opaque]
    pub open spec fn pages_alloc(self, n: u64) -> (PhysicalMemory, Option<u64>) {
        match self.first_fit(n, 0) {
            None => (self, None),
            Some(i) => (self.cut(i, n), Some(self.ranges@[i].base)),
        }
    }

    /// The table with one more range, or the same table if there is nothing to add or no place.
    pub open spec fn with_range(self, base: u64, pages: u64) -> PhysicalMemory {
        if pages == 0 || self.count >= 64 {
            self
        } else {
            PhysicalMemory {
                ranges: self.ranges.upd(self.count as int, FreeRange { base, pages }),
                count: (self.count + 1) as usize,
            }
        }
    }

    /// The table after the first `k` of `added` were appended one by one.
    pub open spec fn with_ranges(self, added: Seq<(u64, u64)>, k: int) -> PhysicalMemory
        decreases k,
    {
        if k <= 0 {
            self
        } else {
            self.with_ranges(added, k - 1).with_range(added[k - 1].0, added[k - 1].1)
        }
    }

    /// Ranges `i` and `j` become one at place `i`; the last range moves to place `j`.
    pub open spec fn merge_pair(self, i: int, j: int) -> PhysicalMemory {
        let a = self.ranges.upd(i, self.ranges@[i].hull(self.ranges@[j]));
        let last = self.count - 1;
        PhysicalMemory {
            ranges: a.upd(j, a@[last]).upd(last, FreeRange { base: 0, pages: 0 }),
            count: last as usize,
        }
    }

    /// The first range, at place `from` or later, that touches range `i`.
    pub open spec fn neighbour(self, i: int, from: int) -> Option<int>
        decreases self.count - from,
    {
        if from < 0 || from >= self.count {
            None
        } else if self.ranges@[i].touches(self.ranges@[from]) {
            Some(from)
        } else {
            self.neighbour(i, from + 1)
        }
    }

    /// The first two ranges that touch, the earlier of them at place `from` or later.
    pub open spec fn touching_pair(self, from: int) -> Option<(int, int)>
        decreases self.count - from,
    {
        if from < 0 || from >= self.count {
            None
        } else {
            match self.neighbour(from, from + 1) {
                Some(j) => Some((from, j)),
                None => self.touching_pair(from + 1),
            }
        }
    }

    /// The table after ranges were merged for as long as two of them touched.
    pub open spec fn merged(self) -> PhysicalMemory
        decreases self.count,
    {
        match self.touching_pair(0) {
            Some((i, j)) => {
                proof {
                    lemma_touching_pair(self, 0);
                }
                self.merge_pair(i, j).merged()
            },
            None => self,
        }
    }

    /// No two ranges touch.
    pub open spec fn settled(self) -> bool {
        forall|i: int, j: int|
            0 <= i < j < self.count ==> !(#[trigger] self.ranges@[i]).touches(
                #[trigger] self.ranges@[j],
            )
    }

    /// The table after `pages` pages at `paddr` came back.
    #[verifier::opaque]
    pub open spec fn freed(self, paddr: u64, pages: u64) -> PhysicalMemory {
        if pages == 0 {
            self
        } else {
            self.with_range(paddr, pages).merged()
        }
    }

    /// The range can be given back: aligned and in bounds, if it has any page.
    pub open spec fn returnable(paddr: u64, pages: u64) -> bool {
        pages == 0 || (FreeRange { base: paddr, pages }).ok()
    }

    /// Number of pages over all recorded ranges.
    pub open spec fn free_total(self) -> int {
        self.total(self.count as int)
    }

    /// Sum of the page counts of the first `k` ranges.
    pub open spec fn total(self, k: int) -> int
        decreases k,
    {
        if k <= 0 {
            0
        } else {
            self.total(k - 1) + self.ranges@[k - 1].pages
        }
    }
}

/// A table with no range.
pub fn empty_memory() -> (mem: PhysicalMemory)
    ensures
        mem.wf(),
        mem.count == 0,
        mem.disjoint(),
        forall|a: int| !mem.is_free(a),
{
    PhysicalMemory { ranges: [FreeRange { base: 0, pages: 0 }; 64], count: 0 }
}

/// Forgets every range.
pub fn init_empty(mem: &mut PhysicalMemory)
    ensures
        *final(mem) == (PhysicalMemory { count: 0, ..*old(mem) }),
        final(mem).wf(),
{
    mem.count = 0;
}

/// Starts over with the given (address, page count) pairs; those beyond the capacity are dropped.
pub fn init_from_ranges(mem: &mut PhysicalMemory, conventional_ranges: &[(u64, u64)])
    ensures
        *final(mem) == (PhysicalMemory { count: 0, ..*old(mem) }).with_ranges(
            conventional_ranges@,
            conventional_ranges@.len() as int,
        ),
        (forall|i: int|
            0 <= i < conventional_ranges@.len() ==> PhysicalMemory::returnable(
                (#[trigger] conventional_ranges@[i]).0,
                conventional_ranges@[i].1,
            )) ==> final(mem).wf(),
{
    mem.count = 0;
    let ghost start = *mem;
    let mut k: usize = 0;
    while k < conventional_ranges.len()
        invariant
            k <= conventional_ranges@.len(),
            mem.count <= 64,
            *mem == start.with_ranges(conventional_ranges@, k as int),
            (forall|i: int|
                0 <= i < conventional_ranges@.len() ==> PhysicalMemory::returnable(
                    (#[trigger] conventional_ranges@[i]).0,
                    conventional_ranges@[i].1,
                )) ==> mem.wf(),
        decreases conventional_ranges@.len() - k,
    {
        let range: (u64, u64) = conventional_ranges[k];
        add_range(mem, range.0, range.1);
        k = k + 1;
    }
}

/// Appends a free range. An empty range changes nothing; a full table drops the range.
pub fn add_range(mem: &mut PhysicalMemory, base: u64, pages: u64)
    requires
        old(mem).count <= 64,
    ensures
        *final(mem) == old(mem).with_range(base, pages),
        final(mem).count <= 64,
        old(mem).wf() && PhysicalMemory::returnable(base, pages) ==> final(mem).wf(),
{
    if pages == 0 {
        return;
    }
    if mem.count < MAX_RANGES {
        let place: usize = mem.count;
        mem.ranges[place] = FreeRange { base, pages };
        mem.count = place + 1;
    }
}

/// Takes one page from the head of the first range that has any.
pub fn alloc_page(mem: &mut PhysicalMemory) -> (r: Option<u64>)
    requires
        old(mem).wf(),
    ensures
        (*final(mem), r) == old(mem).page_alloc(),
        final(mem).wf(),
        r is Some ==> r->0 % 4096 == 0 && r->0 + 4096 <= PHYSICAL_LIMIT,
{
    alloc_pages(mem, 1)
}

/// Takes `n` contiguous pages from the head of the first range that has as many.
pub fn alloc_pages(mem: &mut PhysicalMemory, n: u64) -> (r: Option<u64>)
    requires
        old(mem).wf(),
    ensures
        (*final(mem), r) == old(mem).pages_alloc(n),
        final(mem).wf(),
        r is Some ==> r->0 % 4096 == 0 && r->0 + n * 4096 <= PHYSICAL_LIMIT,
{
    proof {
        reveal(PhysicalMemory::pages_alloc);
    }
    let mut i: usize = 0;
    while i < mem.count
        invariant
            *mem == *old(mem),
            mem.wf(),
            i <= mem.count,
            mem.first_fit(n, 0) == mem.first_fit(n, i as int),
        decreases mem.count - i,
    {
        if mem.ranges[i].pages >= n {
            let range: FreeRange = mem.ranges[i];
            proof {
                reveal(PhysicalMemory::pages_alloc);
                assert(range.ok());
            }
            mem.ranges[i] = FreeRange { base: range.base + n * 4096, pages: range.pages - n };
            return Some(range.base);
        }
        i = i + 1;
    }
    None
}

pub(crate) proof fn lemma_aligned_start(mem: PhysicalMemory, i: int, align_pages: u64)
    requires
        mem.wf(),
        0 <= i < mem.count,
        align_pages > 0,
    ensures
        mem.aligned_start(i, align_pages) % 4096 == 0,
        mem.aligned_start(i, align_pages) % (align_pages * 4096) == 0,
        mem.ranges@[i].base <= mem.aligned_start(i, align_pages) < mem.ranges@[i].base + align_pages
            * 4096,
        mem.prefix(i, align_pages) * 4096 == mem.aligned_start(i, align_pages)
            - mem.ranges@[i].base,
{
    let base = mem.ranges@[i].base as int;
    let unit = align_pages * 4096;
    assert(mem.ranges@[i].ok());
    lemma_round_up(base, unit);
    let s = mem.aligned_start(i, align_pages);
    let q = s / unit;
    vstd::arithmetic::div_mod::lemma_fundamental_div_mod(s, unit);
    assert(s == (q * align_pages) * 4096) by (nonlinear_arith)
        requires
            s == unit * q,
            unit == align_pages * 4096,
    ;
}

/// Takes `n` contiguous pages whose address is a multiple of `align_pages` pages.
pub fn alloc_pages_aligned(mem: &mut PhysicalMemory, n: u64, align_pages: u64) -> (r: Option<u64>)
    requires
        old(mem).wf(),
        crate::util::power_of_two(align_pages as int) ==> align_pages <= 0x8_0000_0000_0000,
    ensures
        (*final(mem), r) == old(mem).aligned_alloc(n, align_pages),
        final(mem).wf(),
        r is Some ==> r->0 % 4096 == 0 && r->0 as int % (align_pages * 4096) == 0 && r->0 + n * 4096
            <= PHYSICAL_LIMIT,
{
    proof {
        reveal(PhysicalMemory::aligned_alloc);
    }
    if n == 0 || align_pages == 0 || !is_power_of_two(align_pages) {
        assert(!crate::util::power_of_two(0)) by {
            assert forall|k: nat| k < 64 implies 0 != #[trigger] vstd::arithmetic::power2::pow2(
                k,
            ) by {
                vstd::arithmetic::power2::lemma_pow2_pos(k);
            }
        }
        return None;
    }
    let alignment: u64 = align_pages * 4096;
    let mut i: usize = 0;
    while i < mem.count
        invariant
            *mem == *old(mem),
            mem.wf(),
            i <= mem.count,
            0 < align_pages <= 0x8_0000_0000_0000,
            0 < n,
            alignment == align_pages * 4096,
            crate::util::power_of_two(align_pages as int),
            mem.first_aligned_fit(n, align_pages, 0) == mem.first_aligned_fit(
                n,
                align_pages,
                i as int,
            ),
        decreases mem.count - i,
    {
        let range: FreeRange = mem.ranges[i];
        proof {
            reveal(PhysicalMemory::aligned_alloc);
            assert(range.ok());
            lemma_round_up(range.base as int, alignment as int);
            lemma_aligned_start(*mem, i as int, align_pages);
            vstd::arithmetic::div_mod::lemma_mod_decreases(range.base as nat, alignment as nat);
        }
        let excess: u64 = range.base % alignment;
        let aligned: u64 = if excess == 0 {
            range.base
        } else {
            range.base - excess + alignment
        };
        let prefix_pages: u64 = (aligned - range.base) / 4096;
        if n > range.pages || prefix_pages > range.pages - n {
            i = i + 1;
            continue;
        }
        let suffix_pages: u64 = range.pages - prefix_pages - n;
        assert(prefix_pages * 4096 + n * 4096 + suffix_pages * 4096 == range.pages * 4096);
        let rest = FreeRange { base: aligned + n * 4096, pages: suffix_pages };
        if prefix_pages == 0 {
            mem.ranges[i] = rest;
        } else {
            mem.ranges[i] = FreeRange { base: range.base, pages: prefix_pages };
            assert(mem.ranges@[i as int].ok());
            if suffix_pages != 0 {
                if mem.count >= MAX_RANGES {
                    return None;
                }
                let place: usize = mem.count;
                mem.ranges[place] = rest;
                mem.count = place + 1;
            }
        }
        return Some(aligned);
    }
    None
}

/// Gives `pages` pages at `paddr` back and merges ranges that touch.
///
/// The caller has stopped using the pages. When the table has no entry left the pages are not
/// recorded and the kernel cannot go on.
pub fn free_pages(mem: &mut PhysicalMemory, paddr: u64, pages: u64) -> (r: Result<
    (),
    RangeTableFull,
>)
    requires
        old(mem).wf(),
        PhysicalMemory::returnable(paddr, pages),
    ensures
        r is Err <==> pages != 0 && old(mem).count >= 64,
        r is Err ==> *final(mem) == *old(mem),
        r is Ok ==> *final(mem) == old(mem).freed(paddr, pages),
        final(mem).wf(),
        r is Ok ==> final(mem).count <= old(mem).count + 1,
        r is Ok && (pages != 0 || old(mem).settled()) ==> final(mem).settled(),
        r is Ok ==> forall|a: int|
            final(mem).is_free(a) <==> old(mem).is_free(a) || (FreeRange {
                base: paddr,
                pages,
            }).covers(a),
        r is Ok && old(mem).disjoint() && (forall|i: int|
            0 <= i < old(mem).count ==> (#[trigger] old(mem).ranges@[i]).apart(
                FreeRange { base: paddr, pages },
            )) ==> final(mem).disjoint(),
{
    proof {
        reveal(PhysicalMemory::freed);
    }
    if pages == 0 {
        return Ok(());
    }
    if mem.count >= MAX_RANGES {
        return Err(RangeTableFull);
    }
    let place: usize = mem.count;
    mem.ranges[place] = FreeRange { base: paddr, pages };
    mem.count = place + 1;
    proof {
        law_freed(*old(mem), paddr, pages);
    }
    merge_ranges(mem);
    Ok(())
}

proof fn lemma_hull(a: FreeRange, b: FreeRange)
    requires
        a.ok(),
        b.ok(),
        a.touches(b),
    ensures
        a.hull(b).ok(),
        a.hull(b).end() == if a.end() > b.end() {
            a.end()
        } else {
            b.end()
        },
        forall|x: int| a.hull(b).covers(x) <==> a.covers(x) || b.covers(x),
{
}

proof fn lemma_merge_pair(mem: PhysicalMemory, i: int, j: int)
    requires
        mem.wf(),
        0 <= i < j < mem.count,
        mem.ranges@[i].touches(mem.ranges@[j]),
    ensures
        mem.merge_pair(i, j).wf(),
        forall|a: int| mem.merge_pair(i, j).is_free(a) <==> mem.is_free(a),
        mem.disjoint() ==> mem.merge_pair(i, j).disjoint(),
{
    let m = mem.merge_pair(i, j);
    let last = mem.count - 1;
    let h = mem.ranges@[i].hull(mem.ranges@[j]);
    assert(mem.ranges@[i].ok() && mem.ranges@[j].ok());
    lemma_hull(mem.ranges@[i], mem.ranges@[j]);
    assert(m.ranges@[i] == h);
    assert(forall|k: int| 0 <= k < last && k != i && k != j ==> m.ranges@[k] == mem.ranges@[k]);
    assert(j < last ==> m.ranges@[j] == mem.ranges@[last]);
    assert forall|k: int| 0 <= k < m.count implies (#[trigger] m.ranges@[k]).ok() by {
        if k == j {
            assert(mem.ranges@[last].ok());
        } else if k != i {
            assert(mem.ranges@[k].ok());
        }
    }
    assert forall|a: int| m.is_free(a) <==> mem.is_free(a) by {
        if mem.is_free(a) {
            let k = choose|k: int| 0 <= k < mem.count && (#[trigger] mem.ranges@[k]).covers(a);
            if k == i || k == j {
                assert(m.ranges@[i].covers(a));
            } else if k == last {
                assert(m.ranges@[j].covers(a));
            } else {
                assert(m.ranges@[k].covers(a));
            }
        }
        if m.is_free(a) {
            let k = choose|k: int| 0 <= k < m.count && (#[trigger] m.ranges@[k]).covers(a);
            if k == i {
                if mem.ranges@[i].covers(a) {
                } else {
                    assert(mem.ranges@[j].covers(a));
                }
            } else if k == j {
                assert(mem.ranges@[last].covers(a));
            } else {
                assert(mem.ranges@[k].covers(a));
            }
        }
    }
    if mem.disjoint() {
        assert forall|x: int, y: int| 0 <= x < y < m.count implies (
        #[trigger] m.ranges@[x]).apart(#[trigger] m.ranges@[y]) by {
            let ox = if x == j {
                last as int
            } else {
                x
            };
            let oy = if y == j {
                last as int
            } else {
                y
            };
            let rx = mem.ranges@[ox];
            let ry = mem.ranges@[oy];
            assert(rx.ok() && ry.ok());
            assert(rx.apart(ry));
            assert(rx.apart(mem.ranges@[j]) || ox == j);
            assert(ry.apart(mem.ranges@[j]) || oy == j);
            assert(rx.apart(mem.ranges@[i]) || ox == i);
            assert(ry.apart(mem.ranges@[i]) || oy == i);
        }
    }
}

proof fn lemma_neighbour(mem: PhysicalMemory, i: int, from: int)
    requires
        0 <= from,
    ensures
        match mem.neighbour(i, from) {
            Some(j) => from <= j < mem.count && mem.ranges@[i].touches(mem.ranges@[j]),
            None => forall|j: int|
                from <= j < mem.count ==> !mem.ranges@[i].touches(#[trigger] mem.ranges@[j]),
        },
    decreases mem.count - from,
{
    if from < mem.count && !mem.ranges@[i].touches(mem.ranges@[from]) {
        lemma_neighbour(mem, i, from + 1);
    }
}

pub proof fn lemma_touching_pair(mem: PhysicalMemory, from: int)
    requires
        0 <= from,
    ensures
        match mem.touching_pair(from) {
            Some((i, j)) => from <= i < j < mem.count && mem.ranges@[i].touches(mem.ranges@[j]),
            None => forall|i: int, j: int|
                from <= i < j < mem.count ==> !(#[trigger] mem.ranges@[i]).touches(
                    #[trigger] mem.ranges@[j],
                ),
        },
    decreases mem.count - from,
{
    if from < mem.count {
        lemma_neighbour(mem, from, from + 1);
        if mem.neighbour(from, from + 1) is None {
            lemma_touching_pair(mem, from + 1);
        }
    }
}

proof fn lemma_merged(mem: PhysicalMemory)
    requires
        mem.wf(),
    ensures
        mem.merged().wf(),
        mem.merged().settled(),
        mem.merged().count <= mem.count,
        forall|a: int| mem.merged().is_free(a) <==> mem.is_free(a),
        mem.disjoint() ==> mem.merged().disjoint(),
        mem.disjoint() ==> mem.merged().free_total() == mem.free_total(),
    decreases mem.count,
{
    lemma_touching_pair(mem, 0);
    if let Some((i, j)) = mem.touching_pair(0) {
        lemma_merge_pair(mem, i, j);
        if mem.disjoint() {
            lemma_merge_pair_total(mem, i, j);
        }
        lemma_merged(mem.merge_pair(i, j));
    }
}

proof fn lemma_total_update(mem: PhysicalMemory, m: PhysicalMemory, i: int, k: int)
    requires
        0 <= i < 64,
        k <= 64,
        forall|x: int| 0 <= x < k && x != i ==> m.ranges@[x] == mem.ranges@[x],
    ensures
        m.total(k) == mem.total(k) + if i < k {
            m.ranges@[i].pages - mem.ranges@[i].pages
        } else {
            0
        },
    decreases k,
{
    if k > 0 {
        lemma_total_update(mem, m, i, k - 1);
    }
}

proof fn lemma_merge_pair_total(mem: PhysicalMemory, i: int, j: int)
    requires
        mem.wf(),
        mem.disjoint(),
        0 <= i < j < mem.count,
        mem.ranges@[i].touches(mem.ranges@[j]),
    ensures
        mem.merge_pair(i, j).free_total() == mem.free_total(),
{
    let m = mem.merge_pair(i, j);
    let last = mem.count - 1;
    let a = mem.ranges@[i];
    let b = mem.ranges@[j];
    assert(a.ok() && b.ok() && a.apart(b));
    lemma_hull(a, b);
    assert(a.hull(b).pages == a.pages + b.pages);
    let joined = PhysicalMemory { ranges: mem.ranges.upd(i, a.hull(b)), ..mem };
    lemma_total_update(mem, joined, i, last as int);
    lemma_total_update(joined, m, j, last as int);
    assert(mem.total(mem.count as int) == mem.total(last as int) + mem.ranges@[last as int].pages);
}

/// Giving a range back frees exactly its pages, and leaves no two ranges that touch. If none of
/// the pages was free before, no page is recorded twice and the total grows by their number.
pub proof fn law_freed(mem: PhysicalMemory, paddr: u64, pages: u64)
    requires
        mem.wf(),
        mem.count < 64,
        PhysicalMemory::returnable(paddr, pages),
    ensures
        mem.freed(paddr, pages).wf(),
        mem.freed(paddr, pages).count <= mem.count + 1,
        pages != 0 || mem.settled() ==> mem.freed(paddr, pages).settled(),
        forall|a: int|
            mem.freed(paddr, pages).is_free(a) <==> mem.is_free(a) || (FreeRange {
                base: paddr,
                pages,
            }).covers(a),
        mem.disjoint() && (forall|i: int|
            0 <= i < mem.count ==> (#[trigger] mem.ranges@[i]).apart(
                FreeRange { base: paddr, pages },
            )) ==> mem.freed(paddr, pages).disjoint() && mem.freed(paddr, pages).free_total()
            == mem.free_total() + pages,
{
    reveal(PhysicalMemory::freed);
    let added = FreeRange { base: paddr, pages };
    if pages != 0 {
        let m = mem.with_range(paddr, pages);
        let place = mem.count as int;
        assert(m.ranges@[place] == added);
        assert(forall|i: int| 0 <= i < place ==> m.ranges@[i] == mem.ranges@[i]);
        assert forall|a: int| m.is_free(a) <==> mem.is_free(a) || added.covers(a) by {
            if mem.is_free(a) {
                let i = choose|i: int| 0 <= i < mem.count && (#[trigger] mem.ranges@[i]).covers(a);
                assert(m.ranges@[i].covers(a));
            }
            if added.covers(a) {
                assert(m.ranges@[place].covers(a));
            }
            if m.is_free(a) {
                let i = choose|i: int| 0 <= i < m.count && (#[trigger] m.ranges@[i]).covers(a);
                if i < place {
                    assert(mem.ranges@[i].covers(a));
                }
            }
        }
        assert forall|i: int| 0 <= i < m.count implies (#[trigger] m.ranges@[i]).ok() by {
            if i < place {
                assert(mem.ranges@[i].ok());
            }
        }
        lemma_merged(m);
        lemma_total_update(mem, m, place, place);
        if mem.disjoint() && (forall|i: int|
            0 <= i < mem.count ==> (#[trigger] mem.ranges@[i]).apart(added)) {
            assert forall|i: int, j: int| 0 <= i < j < m.count implies (
            #[trigger] m.ranges@[i]).apart(#[trigger] m.ranges@[j]) by {
                assert(mem.ranges@[i].apart(added));
                if j < place {
                    assert(mem.ranges@[i].apart(mem.ranges@[j]));
                }
            }
        }
    }
}

proof fn lemma_first_fit(mem: PhysicalMemory, n: u64, from: int)
    requires
        0 <= from,
    ensures
        match mem.first_fit(n, from) {
            Some(i) => from <= i < mem.count && mem.ranges@[i].pages >= n,
            None => forall|i: int| from <= i < mem.count ==> (#[trigger] mem.ranges@[i]).pages < n,
        },
    decreases mem.count - from,
{
    if from < mem.count && mem.ranges@[from].pages < n {
        lemma_first_fit(mem, n, from + 1);
    }
}

/// Pages that are handed out were free and are free no longer; nothing else changes. The
/// allocation fails only when no recorded range has as many pages.
pub proof fn law_pages_alloc(mem: PhysicalMemory, n: u64)
    requires
        mem.wf(),
        mem.disjoint(),
    ensures
        mem.pages_alloc(n).0.wf(),
        mem.pages_alloc(n).0.disjoint(),
        match mem.pages_alloc(n).1 {
            Some(pa) => {
                &&& forall|a: int|
                    (FreeRange { base: pa, pages: n }).covers(a) ==> mem.is_free(a)
                &&& forall|a: int|
                    mem.pages_alloc(n).0.is_free(a) <==> mem.is_free(a) && !(FreeRange {
                        base: pa,
                        pages: n,
                    }).covers(a)
            },
            None => mem.pages_alloc(n).0 == mem && forall|i: int|
                0 <= i < mem.count ==> (#[trigger] mem.ranges@[i]).pages < n,
        },
{
    reveal(PhysicalMemory::pages_alloc);
    lemma_first_fit(mem, n, 0);
    if let Some(i) = mem.first_fit(n, 0) {
        let r = mem.ranges@[i];
        assert(r.ok());
        let taken = FreeRange { base: r.base, pages: n };
        let rest = FreeRange { base: (r.base + n * 4096) as u64, pages: (r.pages - n) as u64 };
        let m = mem.cut(i, n);
        assert(m.ranges@[i] == rest);
        assert(forall|k: int| 0 <= k < mem.count && k != i ==> m.ranges@[k] == mem.ranges@[k]);
        lemma_split(mem, m, i, taken, rest);
    }
}

pub(crate) proof fn lemma_pages_alloc_ok(mem: PhysicalMemory, n: u64)
    requires
        mem.wf(),
    ensures
        mem.pages_alloc(n).0.wf(),
        match mem.pages_alloc(n).1 {
            Some(pa) => pa % 4096 == 0 && pa + n * 4096 <= PHYSICAL_LIMIT,
            None => true,
        },
{
    reveal(PhysicalMemory::pages_alloc);
    lemma_first_fit(mem, n, 0);
    if let Some(i) = mem.first_fit(n, 0) {
        assert(mem.ranges@[i].ok());
        let m = mem.cut(i, n);
        assert forall|k: int| 0 <= k < m.count implies (#[trigger] m.ranges@[k]).ok() by {
            assert(mem.ranges@[k].ok());
        }
    }
}

/// Range `i` was split into `taken`, which left, and `rest`, which stayed in its place.
proof fn lemma_split(
    mem: PhysicalMemory,
    m: PhysicalMemory,
    i: int,
    taken: FreeRange,
    rest: FreeRange,
)
    requires
        mem.wf(),
        mem.disjoint(),
        0 <= i < mem.count,
        m.count == mem.count,
        m.ranges@[i] == rest,
        rest.ok(),
        rest.apart(taken),
        forall|k: int| 0 <= k < mem.count && k != i ==> m.ranges@[k] == mem.ranges@[k],
        forall|a: int| mem.ranges@[i].covers(a) <==> taken.covers(a) || rest.covers(a),
        rest.pages == 0 || mem.ranges@[i].base <= rest.base && rest.end() <= mem.ranges@[i].end(),
        taken.pages == 0 || mem.ranges@[i].base <= taken.base && taken.end()
            <= mem.ranges@[i].end(),
    ensures
        m.wf(),
        m.disjoint(),
        forall|a: int| taken.covers(a) ==> mem.is_free(a),
        forall|a: int| m.is_free(a) <==> mem.is_free(a) && !taken.covers(a),
{
    let r = mem.ranges@[i];
    assert(r.ok());
    assert forall|k: int| 0 <= k < m.count implies (#[trigger] m.ranges@[k]).ok() by {
        assert(mem.ranges@[k].ok());
    }
    assert forall|a: int| taken.covers(a) implies mem.is_free(a) by {
        assert(mem.ranges@[i].covers(a));
    }
    assert forall|a: int| m.is_free(a) <==> mem.is_free(a) && !taken.covers(a) by {
        if m.is_free(a) {
            let k = choose|k: int| 0 <= k < m.count && (#[trigger] m.ranges@[k]).covers(a);
            assert(mem.ranges@[k].covers(a));
            if k != i && taken.covers(a) {
                assert(mem.ranges@[i].covers(a));
                assert(k < i ==> mem.ranges@[k].apart(mem.ranges@[i]));
                assert(i < k ==> mem.ranges@[i].apart(mem.ranges@[k]));
            }
        }
        if mem.is_free(a) && !taken.covers(a) {
            let k = choose|k: int| 0 <= k < mem.count && (#[trigger] mem.ranges@[k]).covers(a);
            assert(m.ranges@[k].covers(a));
        }
    }
    assert forall|x: int, y: int| 0 <= x < y < m.count implies (#[trigger] m.ranges@[x]).apart(
        #[trigger] m.ranges@[y],
    ) by {
        assert(mem.ranges@[x].apart(mem.ranges@[y]));
    }
}

proof fn lemma_first_aligned_fit(mem: PhysicalMemory, n: u64, align_pages: u64, from: int)
    requires
        0 <= from,
    ensures
        match mem.first_aligned_fit(n, align_pages, from) {
            Some(i) => from <= i < mem.count && mem.prefix(i, align_pages) + n
                <= mem.ranges@[i].pages,
            None => true,
        },
    decreases mem.count - from,
{
    if from < mem.count && mem.prefix(from, align_pages) + n > mem.ranges@[from].pages {
        lemma_first_aligned_fit(mem, n, align_pages, from + 1);
    }
}

/// An aligned run that is handed out was free and is free no longer; nothing else changes.
pub proof fn law_aligned_alloc(mem: PhysicalMemory, n: u64, align_pages: u64)
    requires
        mem.wf(),
        mem.disjoint(),
    ensures
        mem.aligned_alloc(n, align_pages).0.wf(),
        mem.aligned_alloc(n, align_pages).0.disjoint(),
        match mem.aligned_alloc(n, align_pages).1 {
            Some(pa) => {
                &&& pa as int % (align_pages * 4096) == 0
                &&& (FreeRange { base: pa, pages: n }).ok()
                &&& forall|a: int|
                    (FreeRange { base: pa, pages: n }).covers(a) ==> mem.is_free(a)
                &&& forall|a: int|
                    mem.aligned_alloc(n, align_pages).0.is_free(a) <==> mem.is_free(a) && !(
                    FreeRange { base: pa, pages: n }).covers(a)
            },
            None => forall|a: int|
                mem.aligned_alloc(n, align_pages).0.is_free(a) ==> mem.is_free(a),
        },
{
    reveal(PhysicalMemory::aligned_alloc);
    if n != 0 && crate::util::power_of_two(align_pages as int) {
        assert(align_pages > 0) by {
            let k = choose|k: nat|
                k < 64 && align_pages as int == #[trigger] vstd::arithmetic::power2::pow2(k);
            vstd::arithmetic::power2::lemma_pow2_pos(k);
        }
        lemma_first_aligned_fit(mem, n, align_pages, 0);
        if let Some(i) = mem.first_aligned_fit(n, align_pages, 0) {
            let r = mem.ranges@[i];
            assert(r.ok());
            lemma_aligned_start(mem, i, align_pages);
            let start = mem.aligned_start(i, align_pages);
            let prefix = mem.prefix(i, align_pages);
            let suffix = r.pages - prefix - n;
            let taken = FreeRange { base: start as u64, pages: n };
            let rest = FreeRange { base: (start + n * 4096) as u64, pages: suffix as u64 };
            let head = FreeRange { base: r.base, pages: prefix as u64 };
            let m = mem.aligned_alloc(n, align_pages).0;
            if prefix == 0 {
                lemma_split(mem, m, i, taken, rest);
            } else {
                let kept = PhysicalMemory { ranges: mem.ranges.upd(i, head), ..mem };
                let tail = FreeRange { base: start as u64, pages: (n + suffix) as u64 };
                assert(kept.ranges@[i] == head);
                lemma_split(mem, kept, i, tail, head);
                if suffix != 0 && mem.count < 64 {
                    let place = mem.count as int;
                    assert(m.ranges@[place] == rest);
                    assert(forall|k: int| 0 <= k < place ==> m.ranges@[k] == kept.ranges@[k]);
                    assert forall|k: int| 0 <= k < m.count implies (#[trigger] m.ranges@[k]).ok() by {
                        if k < place {
                            assert(kept.ranges@[k].ok());
                        }
                    }
                    assert forall|a: int| m.is_free(a) <==> mem.is_free(a) && !taken.covers(a) by {
                        if m.is_free(a) {
                            let k = choose|k: int|
                                0 <= k < m.count && (#[trigger] m.ranges@[k]).covers(a);
                            if k < place {
                                assert(kept.ranges@[k].covers(a));
                                assert(kept.is_free(a));
                            } else {
                                assert(tail.covers(a));
                            }
                        }
                        if mem.is_free(a) && !taken.covers(a) {
                            if kept.is_free(a) {
                                let k = choose|k: int|
                                    0 <= k < kept.count && (#[trigger] kept.ranges@[k]).covers(a);
                                assert(m.ranges@[k].covers(a));
                            } else {
                                assert(tail.covers(a));
                                assert(m.ranges@[place].covers(a));
                            }
                        }
                    }
                    assert forall|x: int, y: int| 0 <= x < y < m.count implies (
                    #[trigger] m.ranges@[x]).apart(#[trigger] m.ranges@[y]) by {
                        if y < place {
                            assert(kept.ranges@[x].apart(kept.ranges@[y]));
                        } else if x != i {
                            assert(x < i ==> mem.ranges@[x].apart(mem.ranges@[i]));
                            assert(i < x ==> mem.ranges@[i].apart(mem.ranges@[x]));
                        }
                    }
                }
            }
        }
    }
}

/// Giving back what was just handed out restores the set of free pages.
pub proof fn law_alloc_then_free(mem: PhysicalMemory, n: u64)
    requires
        mem.wf(),
        mem.disjoint(),
        mem.count < 64,
        mem.pages_alloc(n).1 is Some,
    ensures
        forall|a: int|
            mem.pages_alloc(n).0.freed(mem.pages_alloc(n).1->0, n).is_free(a) <==> mem.is_free(a),
{
    reveal(PhysicalMemory::pages_alloc);
    reveal(PhysicalMemory::freed);
    law_pages_alloc(mem, n);
    lemma_first_fit(mem, n, 0);
    let i = mem.first_fit(n, 0)->0;
    assert(mem.ranges@[i].ok());
    law_freed(mem.pages_alloc(n).0, mem.pages_alloc(n).1->0, n);
}

/// Merges ranges until no two of them touch.
fn merge_ranges(mem: &mut PhysicalMemory)
    requires
        old(mem).wf(),
    ensures
        *final(mem) == old(mem).merged(),
{
    let mut i: usize = 0;
    let mut j: usize = 1;
    while i < mem.count
        invariant
            mem.wf(),
            i < j,
            old(mem).merged() == mem.merged(),
            mem.touching_pair(0) == (match mem.neighbour(i as int, j as int) {
                Some(k) => Some((i as int, k)),
                None => mem.touching_pair(i + 1),
            }),
            i >= mem.count ==> mem.touching_pair(0) is None,
        decreases mem.count, mem.count - i, mem.count - j,
    {
        if j >= mem.count {
            i = i + 1;
            j = i + 1;
            continue;
        }
        let a: FreeRange = mem.ranges[i];
        let b: FreeRange = mem.ranges[j];
        assert(a.ok() && b.ok());
        let a_end: u64 = a.base + a.pages * 4096;
        let b_end: u64 = b.base + b.pages * 4096;
        if a.base <= b_end && b.base <= a_end {
            proof {
                lemma_merge_pair(*mem, i as int, j as int);
            }
            let start: u64 = if a.base < b.base {
                a.base
            } else {
                b.base
            };
            let end: u64 = if a_end > b_end {
                a_end
            } else {
                b_end
            };
            let last: usize = mem.count - 1;
            mem.ranges[i] = FreeRange { base: start, pages: (end - start) / 4096 };
            mem.count = last;
            mem.ranges[j] = mem.ranges[last];
            mem.ranges[last] = FreeRange { base: 0, pages: 0 };
            i = 0;
            j = 1;
        } else {
            j = j + 1;
        }
    }
}

/// Gives one page back.
pub fn free_page(mem: &mut PhysicalMemory, paddr: u64) -> (r: Result<(), RangeTableFull>)
    requires
        old(mem).wf(),
        PhysicalMemory::returnable(paddr, 1),
    ensures
        r is Err <==> old(mem).count >= 64,
        r is Err ==> *final(mem) == *old(mem),
        r is Ok ==> *final(mem) == old(mem).freed(paddr, 1),
        r is Ok ==> final(mem).settled(),
        r is Ok ==> forall|a: int|
            final(mem).is_free(a) <==> old(mem).is_free(a) || paddr <= a < paddr + 4096,
        final(mem).wf(),
{
    free_pages(mem, paddr, 1)
}

/// Number of pages over all recorded ranges.
pub fn free_pages_total(mem: &PhysicalMemory) -> (r: u64)
    requires
        mem.wf(),
    ensures
        r == mem.free_total(),
{
    let mut total: u64 = 0;
    let mut i: usize = 0;
    while i < mem.count
        invariant
            mem.wf(),
            i <= mem.count,
            total == mem.total(i as int),
            total <= i * PHYSICAL_LIMIT,
        decreases mem.count - i,
    {
        assert(mem.ranges@[i as int].ok());
        total = total + mem.ranges[i].pages;
        i = i + 1;
    }
    total
}

impl PhysicalMemory {
    /// The table after the first `k` of `pages` came back, one page each; whether it overflowed.
    pub open spec fn freed_each(self, pages: Seq<u64>, k: int) -> (PhysicalMemory, bool)
        decreases k,
    {
        if k <= 0 {
            (self, false)
        } else {
            let (mem, full) = self.freed_each(pages, k - 1);
            if full || mem.count >= 64 {
                (mem, true)
            } else {
                (mem.freed(pages[k - 1], 1), false)
            }
        }
    }
}

proof fn lemma_freed_each_stops(mem: PhysicalMemory, pages: Seq<u64>, n: int, k: int)
    requires
        0 <= n <= k,
        mem.freed_each(pages, n).1,
    ensures
        mem.freed_each(pages, k) == mem.freed_each(pages, n),
    decreases k - n,
{
    if n < k {
        lemma_freed_each_stops(mem, pages, n, k - 1);
    }
}

/// Gives single pages back, one after the other.
pub fn free_each(mem: &mut PhysicalMemory, pages: &Vec<u64>) -> (r: Result<(), RangeTableFull>)
    requires
        old(mem).wf(),
        forall|i: int| 0 <= i < pages@.len() ==> PhysicalMemory::returnable(#[trigger] pages@[i], 1),
    ensures
        *final(mem) == old(mem).freed_each(pages@, pages@.len() as int).0,
        r is Err <==> old(mem).freed_each(pages@, pages@.len() as int).1,
        final(mem).wf(),
{
    let mut i: usize = 0;
    while i < pages.len()
        invariant
            i <= pages@.len(),
            mem.wf(),
            forall|i: int|
                0 <= i < pages@.len() ==> PhysicalMemory::returnable(#[trigger] pages@[i], 1),
            (*mem, false) == old(mem).freed_each(pages@, i as int),
        decreases pages@.len() - i,
    {
        if let Err(full) = free_page(mem, pages[i]) {
            proof {
                lemma_freed_each_stops(*old(mem), pages@, i + 1, pages@.len() as int);
            }
            return Err(full);
        }
        i = i + 1;
    }
    Ok(())
}

impl PhysicalMemory {
    /// The table after the first `k` of `runs` (address, page count) came back; whether it
    /// overflowed on the way.
    pub open spec fn freed_runs(self, runs: Seq<(u64, u64)>, k: int) -> (PhysicalMemory, bool)
        decreases k,
    {
        if k <= 0 {
            (self, false)
        } else {
            let (mem, full) = self.freed_runs(runs, k - 1);
            let run = runs[k - 1];
            if full || (run.1 != 0 && mem.count >= 64) {
                (mem, true)
            } else {
                (mem.freed(run.0, run.1), false)
            }
        }
    }
}

proof fn lemma_freed_runs_stops(mem: PhysicalMemory, runs: Seq<(u64, u64)>, n: int, k: int)
    requires
        0 <= n <= k,
        mem.freed_runs(runs, n).1,
    ensures
        mem.freed_runs(runs, k) == mem.freed_runs(runs, n),
    decreases k - n,
{
    if n < k {
        lemma_freed_runs_stops(mem, runs, n, k - 1);
    }
}

/// Gives runs of pages back, one after the other.
pub fn free_runs(mem: &mut PhysicalMemory, runs: &Vec<(u64, u64)>) -> (r: Result<(), RangeTableFull>)
    requires
        old(mem).wf(),
        forall|i: int|
            0 <= i < runs@.len() ==> PhysicalMemory::returnable(
                (#[trigger] runs@[i]).0,
                runs@[i].1,
            ),
    ensures
        *final(mem) == old(mem).freed_runs(runs@, runs@.len() as int).0,
        r is Err <==> old(mem).freed_runs(runs@, runs@.len() as int).1,
        final(mem).wf(),
{
    let mut i: usize = 0;
    while i < runs.len()
        invariant
            i <= runs@.len(),
            mem.wf(),
            forall|i: int|
                0 <= i < runs@.len() ==> PhysicalMemory::returnable(
                    (#[trigger] runs@[i]).0,
                    runs@[i].1,
                ),
            (*mem, false) == old(mem).freed_runs(runs@, i as int),
        decreases runs@.len() - i,
    {
        let run: (u64, u64) = runs[i];
        assert(PhysicalMemory::returnable(runs@[i as int].0, runs@[i as int].1));
        if let Err(full) = free_pages(mem, run.0, run.1) {
            proof {
                lemma_freed_runs_stops(*old(mem), runs@, i + 1, runs@.len() as int);
            }
            return Err(full);
        }
        i = i + 1;
    }
    Ok(())
}

/// The pages of a run as a range.
pub open spec fn range_of(run: (u64, u64)) -> FreeRange {
    FreeRange { base: run.0, pages: run.1 }
}

/// Number of pages in the first `k` runs.
pub open spec fn pages_in(runs: Seq<(u64, u64)>, k: int) -> int
    decreases k,
{
    if k <= 0 {
        0
    } else {
        pages_in(runs, k - 1) + runs[k - 1].1
    }
}

/// Each of the runs can come back, none has a page in common with another, and none of their
/// pages is free.
pub open spec fn runs_out(mem: PhysicalMemory, runs: Seq<(u64, u64)>) -> bool {
    &&& forall|i: int|
        0 <= i < runs.len() ==> PhysicalMemory::returnable((#[trigger] runs[i]).0, runs[i].1)
    &&& forall|i: int, a: int|
        0 <= i < runs.len() && #[trigger] range_of(runs[i]).covers(a) ==> !mem.is_free(a)
    &&& forall|i: int, j: int|
        0 <= i < j < runs.len() ==> range_of(#[trigger] runs[i]).apart(
            range_of(#[trigger] runs[j]),
        )
}

proof fn lemma_apart(mem: PhysicalMemory, run: FreeRange)
    requires
        mem.wf(),
        run.ok(),
        forall|a: int| #[trigger] run.covers(a) ==> !mem.is_free(a),
    ensures
        forall|i: int| 0 <= i < mem.count ==> (#[trigger] mem.ranges@[i]).apart(run),
{
    assert forall|i: int| 0 <= i < mem.count implies (#[trigger] mem.ranges@[i]).apart(run) by {
        let range = mem.ranges@[i];
        if !range.apart(run) {
            let a = if range.base > run.base {
                range.base as int
            } else {
                run.base as int
            };
            assert(range.covers(a) && run.covers(a));
            assert(mem.is_free(a));
        }
    }
}

/// Runs that come back become free, and the total grows by the number of their pages.
pub proof fn law_runs_freed(mem: PhysicalMemory, runs: Seq<(u64, u64)>, k: int)
    requires
        mem.wf(),
        mem.disjoint(),
        runs_out(mem, runs),
        0 <= k <= runs.len(),
        !mem.freed_runs(runs, k).1,
    ensures
        ({
            let after = mem.freed_runs(runs, k).0;
            &&& after.wf()
            &&& after.disjoint()
            &&& after.free_total() == mem.free_total() + pages_in(runs, k)
            &&& forall|a: int|
                #[trigger] after.is_free(a) <==> mem.is_free(a) || exists|i: int|
                    0 <= i < k && #[trigger] range_of(runs[i]).covers(a)
        }),
    decreases k,
{
    reveal(PhysicalMemory::freed);
    if k > 0 {
        law_runs_freed(mem, runs, k - 1);
        let before = mem.freed_runs(runs, k - 1).0;
        let after = mem.freed_runs(runs, k).0;
        let run = range_of(runs[k - 1]);
        assert(PhysicalMemory::returnable(runs[k - 1].0, runs[k - 1].1));
        if run.pages != 0 {
            assert forall|a: int| #[trigger] run.covers(a) implies !before.is_free(a) by {
                if before.is_free(a) {
                    assert(range_of(runs[k - 1]).covers(a));
                    assert(!mem.is_free(a));
                    let i = choose|i: int| 0 <= i < k - 1 && #[trigger] range_of(runs[i]).covers(a);
                    assert(range_of(runs[i]).apart(range_of(runs[k - 1])));
                }
            }
            lemma_apart(before, run);
            law_freed(before, run.base, run.pages);
        }
        assert forall|a: int|
            #[trigger] after.is_free(a) <==> mem.is_free(a) || exists|i: int|
                0 <= i < k && #[trigger] range_of(runs[i]).covers(a) by {
            if after.is_free(a) && !mem.is_free(a) {
                if before.is_free(a) {
                    let i = choose|i: int| 0 <= i < k - 1 && #[trigger] range_of(runs[i]).covers(a);
                    assert(range_of(runs[i]).covers(a));
                } else {
                    assert(range_of(runs[k - 1]).covers(a));
                }
            }
            if mem.is_free(a) {
                assert(before.is_free(a));
            }
            if exists|i: int| 0 <= i < k && #[trigger] range_of(runs[i]).covers(a) {
                let i = choose|i: int| 0 <= i < k && #[trigger] range_of(runs[i]).covers(a);
                if i < k - 1 {
                    assert(before.is_free(a));
                }
            }
        }
    }
}

/// Taking pages never makes two ranges touch that did not touch before.
pub proof fn law_alloc_keeps_settled(mem: PhysicalMemory, n: u64, align_pages: u64)
    requires
        mem.wf(),
        mem.settled(),
    ensures
        mem.pages_alloc(n).0.settled(),
        mem.aligned_alloc(n, align_pages).0.settled(),
{
    reveal(PhysicalMemory::pages_alloc);
    reveal(PhysicalMemory::aligned_alloc);
    lemma_first_fit(mem, n, 0);
    if let Some(i) = mem.first_fit(n, 0) {
        let r = mem.ranges@[i];
        assert(r.ok());
        let m = mem.cut(i, n);
        assert forall|x: int, y: int| 0 <= x < y < m.count implies !(
        #[trigger] m.ranges@[x]).touches(#[trigger] m.ranges@[y]) by {
            assert(!mem.ranges@[x].touches(mem.ranges@[y]));
        }
    }
    if n != 0 && crate::util::power_of_two(align_pages as int) {
        assert(align_pages > 0) by {
            let k = choose|k: nat|
                k < 64 && align_pages as int == #[trigger] vstd::arithmetic::power2::pow2(k);
            vstd::arithmetic::power2::lemma_pow2_pos(k);
        }
        lemma_first_aligned_fit(mem, n, align_pages, 0);
        if let Some(i) = mem.first_aligned_fit(n, align_pages, 0) {
            let r = mem.ranges@[i];
            assert(r.ok());
            lemma_aligned_start(mem, i, align_pages);
            let m = mem.aligned_alloc(n, align_pages).0;
            assert forall|x: int, y: int| 0 <= x < y < m.count implies !(
            #[trigger] m.ranges@[x]).touches(#[trigger] m.ranges@[y]) by {
                let ox = if x < mem.count {
                    x
                } else {
                    i
                };
                let oy = if y < mem.count {
                    y
                } else {
                    i
                };
                if ox < oy {
                    assert(!mem.ranges@[ox].touches(mem.ranges@[oy]));
                } else if oy < ox {
                    assert(!mem.ranges@[oy].touches(mem.ranges@[ox]));
                }
            }
        }
    }
}

} // verus!
