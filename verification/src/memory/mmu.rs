//! Stage-1 translation tables: three levels with a 4 KiB granule.
//!
//! A virtual address has 39 bits: nine select an entry of the first level (1 GiB each), nine of
//! the second (2 MiB each), nine of the third (4 KiB each). Tables live in physical pages from
//! the page allocator; every word that changes is also stored to its physical place.
use crate::hw::HwOp;
use crate::machine::{Fault, Kernel, Machine, MachineView};
use crate::memory::physical::{self, PhysicalMemory, PHYSICAL_LIMIT};
use vstd::prelude::*;

verus! {

/// A table of the last level; an entry maps one page.
pub struct Level3 {
    pub pa: u64,
    pub entries: Vec<u64>,
}

/// A descriptor of the second level.
pub enum Slot2 {
    /// Empty, or a 2 MiB block.
    Word(u64),
    Table(Level3),
}

pub struct Level2 {
    pub pa: u64,
    pub slots: Vec<Slot2>,
}

/// A descriptor of the first level.
pub enum Slot1 {
    /// Empty, or a 1 GiB block.
    Word(u64),
    Table(Level2),
}

/// One translation table, from its root page down.
pub struct PageTable {
    pub root: u64,
    pub slots: Vec<Slot1>,
}

#[verifier::ext_equal]
pub struct Level3View {
    pub pa: u64,
    pub entries: Seq<u64>,
}

#[verifier::ext_equal]
pub enum Slot2View {
    Word(u64),
    Table(Level3View),
}

#[verifier::ext_equal]
pub struct Level2View {
    pub pa: u64,
    pub slots: Seq<Slot2View>,
}

#[verifier::ext_equal]
pub enum Slot1View {
    Word(u64),
    Table(Level2View),
}

#[verifier::ext_equal]
pub struct TableView {
    pub root: u64,
    pub slots: Seq<Slot1View>,
}

impl View for Level3 {
    type V = Level3View;

    open spec fn view(&self) -> Level3View {
        Level3View { pa: self.pa, entries: self.entries@ }
    }
}

impl View for Slot2 {
    type V = Slot2View;

    open spec fn view(&self) -> Slot2View {
        match self {
            Slot2::Word(w) => Slot2View::Word(*w),
            Slot2::Table(t) => Slot2View::Table(t@),
        }
    }
}

impl View for Level2 {
    type V = Level2View;

    open spec fn view(&self) -> Level2View {
        Level2View { pa: self.pa, slots: self.slots@.map_values(|s: Slot2| s@) }
    }
}

impl View for Slot1 {
    type V = Slot1View;

    open spec fn view(&self) -> Slot1View {
        match self {
            Slot1::Word(w) => Slot1View::Word(*w),
            Slot1::Table(t) => Slot1View::Table(t@),
        }
    }
}

impl View for PageTable {
    type V = TableView;

    open spec fn view(&self) -> TableView {
        TableView { root: self.root, slots: self.slots@.map_values(|s: Slot1| s@) }
    }
}

impl Level2View {
    pub open spec fn wf(self) -> bool {
        &&& self.slots.len() == 512
        &&& self.pa % 4096 == 0
        &&& self.pa < PHYSICAL_LIMIT
        &&& forall|j: int|
            0 <= j < 512 ==> match (#[trigger] self.slots[j]) {
                Slot2View::Table(l3) => l3.entries.len() == 512 && l3.pa % 4096 == 0 && l3.pa
                    < PHYSICAL_LIMIT,
                Slot2View::Word(w) => w & 3 != 3,
            }
    }
}

impl TableView {
    pub open spec fn wf(self) -> bool {
        &&& self.slots.len() == 512
        &&& self.root % 4096 == 0
        &&& self.root < PHYSICAL_LIMIT
        &&& forall|i: int|
            0 <= i < 512 ==> match (#[trigger] self.slots[i]) {
                Slot1View::Table(l2) => l2.wf(),
                Slot1View::Word(w) => w & 3 != 3,
            }
    }
}

pub const DESC_TABLE: u64 = 0b11;

pub const DESC_BLOCK: u64 = 0b01;

pub const DESC_PAGE: u64 = 0b11;

pub const OUTPUT_ADDRESS_MASK: u64 = 0x0000_ffff_ffff_f000;

/// Index of ordinary cacheable memory among the memory attributes.
pub const ATTR_NORMAL: u64 = 0;

/// Index of device memory among the memory attributes.
pub const ATTR_DEVICE: u64 = 1;

/// Index of ordinary uncached memory among the memory attributes.
pub const ATTR_NORMAL_NC: u64 = 2;

pub const SH_INNER: u64 = 0b11 << 8;

pub const SH_OUTER: u64 = 0b10 << 8;

/// EL1 reads and writes; EL0 has no access.
pub const AP_RW_EL1: u64 = 0;

/// EL1 and EL0 read and write.
pub const AP_RW_EL0: u64 = 1 << 6;

/// EL1 and EL0 read.
pub const AP_RO_EL0: u64 = 3 << 6;

// Preset mappings: access rights, memory attribute, shareability, the access flag (bit 10), and
// the bits that forbid execution at EL1 (53) and at EL0 (54).
pub const MMU_KERNEL: u64 = 0x0040_0000_0000_0700;

pub const MMU_USER_RX: u64 = 0x0020_0000_0000_07c0;

pub const MMU_USER_RW: u64 = 0x0060_0000_0000_0740;

pub const MMU_USER_RO: u64 = 0x0060_0000_0000_07c0;

pub const MMU_DEV: u64 = 0x0060_0000_0000_0604;

pub const MMU_USER_DEV: u64 = 0x0060_0000_0000_0644;

pub const MMU_USER_DMA: u64 = 0x0060_0000_0000_0748;

/// Bit that forbids EL0 to execute.
pub const UXN: u64 = 0x0040_0000_0000_0000;

/// Bit that lets EL0 access a page.
pub const EL0_ACCESS: u64 = 0x40;

/// Bit that makes a page read-only.
pub const READ_ONLY: u64 = 0x80;

#[derive(Clone, Copy, Debug, PartialEq, Eq, Structural)]
pub enum MapError {
    Conflict,
    NoMemory,
}

/// What a descriptor of an upper level holds.
#[derive(Clone, Copy, Debug, PartialEq, Eq, Structural)]
pub enum Kind {
    Empty,
    Block,
    /// A table of the next level at this physical address.
    Table(u64),
}

/// Place of `va` in the first level.
pub open spec fn l1_of(va: int) -> int {
    (va / 0x4000_0000) % 512
}

/// Place of `va` in the second level.
pub open spec fn l2_of(va: int) -> int {
    (va / 0x20_0000) % 512
}

/// Place of `va` in the third level.
pub open spec fn l3_of(va: int) -> int {
    (va / 0x1000) % 512
}

/// Both addresses are translated by the same page descriptor.
pub open spec fn same_page(a: int, b: int) -> bool {
    l1_of(a) == l1_of(b) && l2_of(a) == l2_of(b) && l3_of(a) == l3_of(b)
}

/// The descriptor of a mapped page.
pub open spec fn page_word(pa: u64, flags: u64) -> u64 {
    (pa & !0xfffu64) | flags | DESC_PAGE
}

/// The descriptor of a mapped 2 MiB block.
pub open spec fn block_word(pa: u64, flags: u64) -> u64 {
    (pa & !0x1f_ffffu64) | flags | DESC_BLOCK
}

impl TableView {
    pub open spec fn kind1(self, va: int) -> Kind {
        match self.slots[l1_of(va)] {
            Slot1View::Word(w) => if w == 0 {
                Kind::Empty
            } else {
                Kind::Block
            },
            Slot1View::Table(l2) => Kind::Table(l2.pa),
        }
    }

    /// The second-level descriptor of `va`; empty where there is no second level.
    pub open spec fn kind2(self, va: int) -> Kind {
        match self.slots[l1_of(va)] {
            Slot1View::Word(w) => Kind::Empty,
            Slot1View::Table(l2) => match l2.slots[l2_of(va)] {
                Slot2View::Word(w) => if w == 0 {
                    Kind::Empty
                } else {
                    Kind::Block
                },
                Slot2View::Table(l3) => Kind::Table(l3.pa),
            },
        }
    }

    /// The page descriptor of `va`; zero where there is no third level.
    pub open spec fn leaf(self, va: int) -> u64 {
        match self.slots[l1_of(va)] {
            Slot1View::Word(w) => 0,
            Slot1View::Table(l2) => match l2.slots[l2_of(va)] {
                Slot2View::Word(w) => 0,
                Slot2View::Table(l3) => l3.entries[l3_of(va)],
            },
        }
    }

    /// The descriptor of `va`, if it maps a page.
    pub open spec fn page(self, va: int) -> Option<u64> {
        if self.leaf(va) & 0b11 == DESC_PAGE {
            Some(self.leaf(va))
        } else {
            None
        }
    }

    /// Physical place of the page descriptor of `va`.
    pub open spec fn leaf_place(self, va: int) -> int {
        match self.kind2(va) {
            Kind::Table(pa) => pa + l3_of(va) * 8,
            _ => 0,
        }
    }

    pub open spec fn with_l2(self, va: int, pa: u64) -> TableView {
        TableView {
            slots: self.slots.update(
                l1_of(va),
                Slot1View::Table(
                    Level2View { pa, slots: Seq::new(512, |i: int| Slot2View::Word(0)) },
                ),
            ),
            ..self
        }
    }

    /// The table with another descriptor in the second level.
    pub open spec fn with_slot2(self, va: int, slot: Slot2View) -> TableView {
        match self.slots[l1_of(va)] {
            Slot1View::Word(w) => self,
            Slot1View::Table(l2) => TableView {
                slots: self.slots.update(
                    l1_of(va),
                    Slot1View::Table(Level2View { slots: l2.slots.update(l2_of(va), slot), ..l2 }),
                ),
                ..self
            },
        }
    }

    pub open spec fn with_l3(self, va: int, pa: u64) -> TableView {
        self.with_slot2(
            va,
            Slot2View::Table(Level3View { pa, entries: Seq::new(512, |i: int| 0u64) }),
        )
    }

    pub open spec fn with_leaf(self, va: int, word: u64) -> TableView {
        match self.slots[l1_of(va)] {
            Slot1View::Word(w) => self,
            Slot1View::Table(l2) => match l2.slots[l2_of(va)] {
                Slot2View::Word(w) => self,
                Slot2View::Table(l3) => self.with_slot2(
                    va,
                    Slot2View::Table(
                        Level3View { entries: l3.entries.update(l3_of(va), word), ..l3 },
                    ),
                ),
            },
        }
    }
}

fn l1_index(va: u64) -> (r: usize)
    ensures
        r == l1_of(va as int),
        r < 512,
{
    assert((va >> 30) & 0x1ff == (va / 0x4000_0000) % 512) by (bit_vector);
    ((va >> 30) & 0x1ff) as usize
}

fn l2_index(va: u64) -> (r: usize)
    ensures
        r == l2_of(va as int),
        r < 512,
{
    assert((va >> 21) & 0x1ff == (va / 0x20_0000) % 512) by (bit_vector);
    ((va >> 21) & 0x1ff) as usize
}

fn l3_index(va: u64) -> (r: usize)
    ensures
        r == l3_of(va as int),
        r < 512,
{
    assert((va >> 12) & 0x1ff == (va / 0x1000) % 512) by (bit_vector);
    ((va >> 12) & 0x1ff) as usize
}

impl PageTable {
    /// A root page with no descriptor.
    fn empty(root: u64) -> (r: PageTable)
        requires
            root % 4096 == 0,
            root < PHYSICAL_LIMIT,
        ensures
            r@ == (TableView { root, slots: Seq::new(512, |i: int| Slot1View::Word(0)) }),
            r@.wf(),
    {
        let mut slots: Vec<Slot1> = Vec::new();
        let mut i: usize = 0;
        while i < 512
            invariant
                i <= 512,
                slots@.len() == i,
                forall|j: int| 0 <= j < i ==> (#[trigger] slots@[j])@ == Slot1View::Word(0),
            decreases 512 - i,
        {
            slots.push(Slot1::Word(0));
            i = i + 1;
        }
        let r = PageTable { root, slots };
        assert(r@.slots =~= Seq::new(512, |i: int| Slot1View::Word(0)));
        assert(0u64 & 3 != 3) by (bit_vector);
        r
    }

    fn kind1(&self, va: u64) -> (r: Kind)
        requires
            self@.wf(),
        ensures
            r == self@.kind1(va as int),
    {
        let i: usize = l1_index(va);
        assert(self@.slots[i as int] == self.slots@[i as int]@);
        match &self.slots[i] {
            Slot1::Word(w) => if *w == 0 {
                Kind::Empty
            } else {
                Kind::Block
            },
            Slot1::Table(l2) => Kind::Table(l2.pa),
        }
    }

    fn kind2(&self, va: u64) -> (r: Kind)
        requires
            self@.wf(),
        ensures
            r == self@.kind2(va as int),
    {
        let i: usize = l1_index(va);
        let j: usize = l2_index(va);
        assert(self@.slots[i as int] == self.slots@[i as int]@);
        match &self.slots[i] {
            Slot1::Word(w) => Kind::Empty,
            Slot1::Table(l2) => {
                assert(l2@.slots[j as int] == l2.slots@[j as int]@);
                match &l2.slots[j] {
                    Slot2::Word(w) => if *w == 0 {
                        Kind::Empty
                    } else {
                        Kind::Block
                    },
                    Slot2::Table(l3) => Kind::Table(l3.pa),
                }
            },
        }
    }

    fn leaf(&self, va: u64) -> (r: u64)
        requires
            self@.wf(),
        ensures
            r == self@.leaf(va as int),
    {
        let i: usize = l1_index(va);
        let j: usize = l2_index(va);
        let k: usize = l3_index(va);
        assert(self@.slots[i as int] == self.slots@[i as int]@);
        match &self.slots[i] {
            Slot1::Word(w) => 0,
            Slot1::Table(l2) => {
                assert(l2@.slots[j as int] == l2.slots@[j as int]@);
                match &l2.slots[j] {
                    Slot2::Word(w) => 0,
                    Slot2::Table(l3) => l3.entries[k],
                }
            },
        }
    }

    fn add_l2(&mut self, va: u64, pa: u64)
        requires
            old(self)@.wf(),
            pa % 4096 == 0,
            pa < PHYSICAL_LIMIT,
        ensures
            final(self)@ == old(self)@.with_l2(va as int, pa),
            final(self)@.wf(),
    {
        let i: usize = l1_index(va);
        let mut slots: Vec<Slot2> = Vec::new();
        let mut j: usize = 0;
        while j < 512
            invariant
                j <= 512,
                slots@.len() == j,
                forall|n: int| 0 <= n < j ==> (#[trigger] slots@[n])@ == Slot2View::Word(0),
            decreases 512 - j,
        {
            slots.push(Slot2::Word(0));
            j = j + 1;
        }
        let l2 = Level2 { pa, slots };
        assert(l2@.slots =~= Seq::new(512, |i: int| Slot2View::Word(0)));
        assert(0u64 & 3 != 3) by (bit_vector);
        assert(l2@.wf());
        let ghost before = self@;
        self.slots[i] = Slot1::Table(l2);
        assert(self@.slots =~= before.with_l2(va as int, pa).slots);
        assert forall|n: int| 0 <= n < 512 implies match (#[trigger] self@.slots[n]) {
            Slot1View::Table(l2) => l2.wf(),
            Slot1View::Word(w) => w & 3 != 3,
        } by {
            if n != i {
                assert(self@.slots[n] == before.slots[n]);
            }
        }
    }

    fn set_slot2(&mut self, va: u64, slot: Slot2)
        requires
            old(self)@.wf(),
            match slot@ {
                Slot2View::Table(l3) => l3.entries.len() == 512 && l3.pa % 4096 == 0 && l3.pa
                    < PHYSICAL_LIMIT,
                Slot2View::Word(w) => w & 3 != 3,
            },
        ensures
            final(self)@ == old(self)@.with_slot2(va as int, slot@),
            final(self)@.wf(),
    {
        let i: usize = l1_index(va);
        let j: usize = l2_index(va);
        let ghost before = self@;
        let ghost view = slot@;
        assert(self@.slots[i as int] == self.slots@[i as int]@);
        match &mut self.slots[i] {
            Slot1::Word(_) => {},
            Slot1::Table(l2) => {
                let ghost old_l2 = l2@;
                assert(old_l2.wf());
                l2.slots[j] = slot;
                assert(l2@.slots =~= old_l2.slots.update(j as int, view));
                assert(l2@.wf());
            },
        }
        assert(self@.slots =~= before.with_slot2(va as int, view).slots);
        assert forall|n: int| 0 <= n < 512 implies match (#[trigger] self@.slots[n]) {
            Slot1View::Table(l2) => l2.wf(),
            Slot1View::Word(w) => w & 3 != 3,
        } by {
            assert(match before.slots[n] {
                Slot1View::Table(l2) => l2.wf(),
                Slot1View::Word(w) => w & 3 != 3,
            });
        }
    }

    fn add_l3(&mut self, va: u64, pa: u64)
        requires
            old(self)@.wf(),
            pa % 4096 == 0,
            pa < PHYSICAL_LIMIT,
        ensures
            final(self)@ == old(self)@.with_l3(va as int, pa),
            final(self)@.wf(),
    {
        let mut entries: Vec<u64> = Vec::new();
        let mut k: usize = 0;
        while k < 512
            invariant
                k <= 512,
                entries@.len() == k,
                forall|n: int| 0 <= n < k ==> entries@[n] == 0,
            decreases 512 - k,
        {
            entries.push(0);
            k = k + 1;
        }
        assert(entries@ =~= Seq::new(512, |i: int| 0u64));
        self.set_slot2(va, Slot2::Table(Level3 { pa, entries }));
    }

    fn set_leaf(&mut self, va: u64, word: u64)
        requires
            old(self)@.wf(),
        ensures
            final(self)@ == old(self)@.with_leaf(va as int, word),
            final(self)@.wf(),
    {
        let i: usize = l1_index(va);
        let j: usize = l2_index(va);
        let k: usize = l3_index(va);
        let ghost before = self@;
        assert(self@.slots[i as int] == self.slots@[i as int]@);
        match &mut self.slots[i] {
            Slot1::Word(_) => {},
            Slot1::Table(l2) => {
                let ghost old_l2 = l2@;
                assert(old_l2.wf());
                assert(l2@.slots[j as int] == l2.slots@[j as int]@);
                match &mut l2.slots[j] {
                    Slot2::Word(_) => {},
                    Slot2::Table(l3) => {
                        l3.entries[k] = word;
                    },
                }
                assert(l2@.slots =~= match old_l2.slots[j as int] {
                    Slot2View::Table(l3) => old_l2.slots.update(
                        j as int,
                        Slot2View::Table(
                            Level3View { entries: l3.entries.update(k as int, word), ..l3 },
                        ),
                    ),
                    Slot2View::Word(_) => old_l2.slots,
                });
                assert(l2@.wf());
            },
        }
        assert(self@.slots =~= before.with_leaf(va as int, word).slots);
        assert forall|n: int| 0 <= n < 512 implies match (#[trigger] self@.slots[n]) {
            Slot1View::Table(l2) => l2.wf(),
            Slot1View::Word(w) => w & 3 != 3,
        } by {
            assert(match before.slots[n] {
                Slot1View::Table(l2) => l2.wf(),
                Slot1View::Word(w) => w & 3 != 3,
            });
        }
    }
}

/// The first table with this root, at place `from` or later.
pub open spec fn table_of(tables: Seq<TableView>, root: u64, from: int) -> Option<int>
    decreases tables.len() - from,
{
    if from < 0 || from >= tables.len() {
        None
    } else if tables[from].root == root {
        Some(from)
    } else {
        table_of(tables, root, from + 1)
    }
}

pub(crate) proof fn lemma_table_of(tables: Seq<TableView>, root: u64, from: int)
    requires
        0 <= from,
    ensures
        match table_of(tables, root, from) {
            Some(i) => from <= i < tables.len() && tables[i].root == root && forall|j: int|
                from <= j < i ==> tables[j].root != root,
            None => forall|j: int| from <= j < tables.len() ==> tables[j].root != root,
        },
    decreases tables.len() - from,
{
    if from < tables.len() && tables[from].root != root {
        lemma_table_of(tables, root, from + 1);
    }
}

proof fn lemma_table_of_update(tables: Seq<TableView>, i: int, t: TableView, root: u64, from: int)
    requires
        0 <= i < tables.len(),
        t.root == tables[i].root,
        0 <= from,
    ensures
        table_of(tables.update(i, t), root, from) == table_of(tables, root, from),
    decreases tables.len() - from,
{
    if from < tables.len() {
        lemma_table_of_update(tables, i, t, root, from + 1);
    }
}

impl MachineView {
    /// The translation table with this root.
    pub open spec fn table(self, root: u64) -> Option<TableView> {
        match table_of(self.tables, root, 0) {
            Some(i) => Some(self.tables[i]),
            None => None,
        }
    }

    /// The descriptor that maps `va` under `root`, if one maps a page there.
    pub open spec fn page_at(self, root: u64, va: int) -> Option<u64> {
        match self.table(root) {
            Some(t) => t.page(va),
            None => None,
        }
    }

    pub open spec fn with_table(self, i: int, t: TableView) -> MachineView {
        MachineView { tables: self.tables.update(i, t), ..self }
    }

    /// A second-level table for `va` exists in table `i`, or why it cannot.
    pub open spec fn build_l2(self, i: int, va: int) -> (MachineView, Option<MapError>) {
        match self.tables[i].kind1(va) {
            Kind::Table(_) => (self, None),
            Kind::Block => (self, Some(MapError::Conflict)),
            Kind::Empty => {
                let (mem, page) = self.k.mem.page_alloc();
                let s = self.with_mem(mem);
                match page {
                    None => (s, Some(MapError::NoMemory)),
                    Some(pa) => (
                        s.with_table(i, self.tables[i].with_l2(va, pa)).op(
                            HwOp::Zero { pa, bytes: 4096 },
                        ).op(
                            HwOp::Store {
                                pa: (self.tables[i].root + l1_of(va) * 8) as u64,
                                word: pa | DESC_TABLE,
                            },
                        ),
                        None,
                    ),
                }
            },
        }
    }

    /// A third-level table for `va` exists in table `i`, or why it cannot.
    pub open spec fn build_l3(self, i: int, va: int) -> (MachineView, Option<MapError>) {
        match self.tables[i].kind2(va) {
            Kind::Table(_) => (self, None),
            Kind::Block => (self, Some(MapError::Conflict)),
            Kind::Empty => {
                let (mem, page) = self.k.mem.page_alloc();
                let s = self.with_mem(mem);
                match page {
                    None => (s, Some(MapError::NoMemory)),
                    Some(pa) => (
                        s.with_table(i, self.tables[i].with_l3(va, pa)).op(
                            HwOp::Zero { pa, bytes: 4096 },
                        ).op(
                            HwOp::Store {
                                pa: (match self.tables[i].kind1(va) {
                                    Kind::Table(l2) => l2 + l2_of(va) * 8,
                                    _ => 0,
                                }) as u64,
                                word: pa | DESC_TABLE,
                            },
                        ),
                        None,
                    ),
                }
            },
        }
    }

    /// Both lower levels for `va` exist in table `i`, or why they cannot. A level that was made
    /// before the failure stays.
    #[verifier::opaque]
    pub open spec fn build(self, i: int, va: int) -> (MachineView, Option<MapError>) {
        let (s, error) = self.build_l2(i, va);
        if error is Some {
            (s, error)
        } else {
            s.build_l3(i, va)
        }
    }

    /// The page descriptor of `va` in table `i` becomes `word`.
    pub open spec fn put_leaf(self, i: int, va: int, word: u64) -> MachineView {
        self.with_table(i, self.tables[i].with_leaf(va, word)).op(
            HwOp::Store { pa: self.tables[i].leaf_place(va) as u64, word },
        )
    }

    /// One page is mapped, whatever was mapped there before.
    pub open spec fn map_one(self, root: u64, va: int, pa: u64, flags: u64) -> (
        MachineView,
        Option<Fault>,
    ) {
        match table_of(self.tables, root, 0) {
            None => (self, Some(Fault::BlockInTheWay)),
            Some(i) => {
                let (s, error) = self.build(i, va);
                match error {
                    Some(MapError::Conflict) => (s, Some(Fault::BlockInTheWay)),
                    Some(MapError::NoMemory) => (s, Some(Fault::NoTableMemory)),
                    None => (s.put_leaf(i, va, page_word(pa, flags)), None),
                }
            },
        }
    }

    /// One page is mapped, unless something is mapped there.
    pub open spec fn map_one_checked(self, root: u64, va: int, pa: u64, flags: u64) -> (
        MachineView,
        Option<MapError>,
    ) {
        match table_of(self.tables, root, 0) {
            None => (self, Some(MapError::Conflict)),
            Some(i) => {
                let (s, error) = self.build(i, va);
                if error is Some {
                    (s, error)
                } else if s.tables[i].page(va) is Some {
                    (s, Some(MapError::Conflict))
                } else {
                    (s.put_leaf(i, va, page_word(pa, flags)), None)
                }
            },
        }
    }

    /// The first `n` pages of a run are mapped in turn, up to the first failure.
    #[verifier::opaque]
    pub open spec fn map_run(self, root: u64, va: int, pa: int, flags: u64, n: int) -> (
        MachineView,
        Option<Fault>,
    )
        decreases n,
    {
        if n <= 0 {
            (self, None)
        } else {
            let (s, fault) = self.map_run(root, va, pa, flags, n - 1);
            if fault is Some {
                (s, fault)
            } else {
                s.map_one(root, va + (n - 1) * 4096, (pa + (n - 1) * 4096) as u64, flags)
            }
        }
    }

    /// The first `n` pages of a run are mapped in turn where nothing is mapped; the number that
    /// was, and the first failure.
    pub open spec fn checked_run(self, root: u64, va: int, pa: int, flags: u64, n: int) -> (
        MachineView,
        int,
        Option<MapError>,
    )
        decreases n,
    {
        if n <= 0 {
            (self, 0, None)
        } else {
            let (s, mapped, error) = self.checked_run(root, va, pa, flags, n - 1);
            if error is Some {
                (s, mapped, error)
            } else {
                let (t, failed) = s.map_one_checked(
                    root,
                    va + (n - 1) * 4096,
                    (pa + (n - 1) * 4096) as u64,
                    flags,
                );
                (
                    t,
                    if failed is Some {
                        mapped
                    } else {
                        n
                    },
                    failed,
                )
            }
        }
    }

    /// Nothing is mapped at any of `n` pages from `va` on.
    pub open spec fn run_unmapped(self, root: u64, va: int, n: int) -> bool {
        forall|j: int| 0 <= j < n ==> (#[trigger] self.page_at(root, va + j * 4096)) is None
    }

    /// The pages from `va` on map the `n` physical pages from `pa` on.
    pub open spec fn run_maps(self, root: u64, va: int, pa: int, n: int) -> bool {
        forall|j: int|
            0 <= j < n ==> match (#[trigger] self.page_at(root, va + j * 4096)) {
                Some(word) => word & OUTPUT_ADDRESS_MASK == pa + j * 4096,
                None => false,
            }
    }

    /// A run of pages is mapped where all of it is free. On failure what was mapped of it is
    /// taken back; new tables stay.
    #[verifier::opaque]
    pub open spec fn map_checked(self, root: u64, va: int, pa: int, flags: u64, count: int) -> (
        MachineView,
        Option<MapError>,
    ) {
        if count == 0 || !self.run_unmapped(root, va, count) {
            (self, Some(MapError::Conflict))
        } else {
            let (s, mapped, error) = self.checked_run(root, va, pa, flags, count);
            if error is Some {
                let t = s.unmap_run(root, va, mapped).0;
                (
                    if mapped != 0 {
                        t.op(HwOp::FlushTlb)
                    } else {
                        t
                    },
                    error,
                )
            } else {
                (s.op(HwOp::FlushTlb), None)
            }
        }
    }

    /// The page at `va` is no longer mapped; whether it was.
    pub open spec fn unmap_one(self, root: u64, va: int) -> (MachineView, bool) {
        match table_of(self.tables, root, 0) {
            None => (self, false),
            Some(i) => if self.tables[i].page(va) is Some {
                (self.put_leaf(i, va, 0), true)
            } else {
                (self, false)
            },
        }
    }

    /// The first `n` pages from `va` on are no longer mapped; how many were.
    #[verifier::opaque]
    pub open spec fn unmap_run(self, root: u64, va: int, n: int) -> (MachineView, int)
        decreases n,
    {
        if n <= 0 {
            (self, 0)
        } else {
            let (s, removed) = self.unmap_run(root, va, n - 1);
            let (t, was) = s.unmap_one(root, va + (n - 1) * 4096);
            (
                t,
                if was {
                    removed + 1
                } else {
                    removed
                },
            )
        }
    }

    /// A 2 MiB block is mapped, whatever was mapped there before.
    #[verifier::opaque]
    pub open spec fn map_block(self, root: u64, va: int, pa: u64, flags: u64) -> (
        MachineView,
        Option<Fault>,
    ) {
        match table_of(self.tables, root, 0) {
            None => (self, Some(Fault::BlockInTheWay)),
            Some(i) => {
                let (s, error) = self.build_l2(i, va);
                match error {
                    Some(MapError::Conflict) => (s, Some(Fault::BlockInTheWay)),
                    Some(MapError::NoMemory) => (s, Some(Fault::NoTableMemory)),
                    None => (
                        s.with_table(
                            i,
                            s.tables[i].with_slot2(va, Slot2View::Word(block_word(pa, flags))),
                        ).op(
                            HwOp::Store {
                                pa: (match s.tables[i].kind1(va) {
                                    Kind::Table(l2) => l2 + l2_of(va) * 8,
                                    _ => 0,
                                }) as u64,
                                word: block_word(pa, flags),
                            },
                        ),
                        None,
                    ),
                }
            },
        }
    }

    /// Identity blocks for `n` blocks from `va` on, but not for those that begin in the gap.
    #[verifier::opaque]
    pub open spec fn map_blocks(
        self,
        root: u64,
        va: int,
        flags: u64,
        skip_start: int,
        skip_end: int,
        n: int,
    ) -> (MachineView, Option<Fault>)
        decreases n,
    {
        if n <= 0 {
            (self, None)
        } else {
            let (s, fault) = self.map_blocks(root, va, flags, skip_start, skip_end, n - 1);
            let at = va + (n - 1) * 0x20_0000;
            if fault is Some || skip_start <= at < skip_end {
                (s, fault)
            } else {
                s.map_block(root, at, at as u64, flags)
            }
        }
    }

    /// A new empty table, or none for want of a page.
    #[verifier::opaque]
    pub open spec fn new_table(self) -> (MachineView, Option<u64>) {
        let (mem, page) = self.k.mem.page_alloc();
        let s = self.with_mem(mem);
        match page {
            None => (s, None),
            Some(root) => (
                MachineView {
                    tables: s.tables.push(
                        TableView { root, slots: Seq::new(512, |i: int| Slot1View::Word(0)) },
                    ),
                    ..s
                }.op(HwOp::Zero { pa: root, bytes: 4096 }),
                Some(root),
            ),
        }
    }
}

fn find_table(m: &Machine, root: u64) -> (r: Option<usize>)
    ensures
        match r {
            Some(i) => i < m.tables@.len() && table_of(m@.tables, root, 0) == Some(i as int)
                && m@.tables[i as int] == m.tables@[i as int]@ && m.tables@[i as int]@.root == root,
            None => table_of(m@.tables, root, 0) is None,
        },
{
    let mut i: usize = 0;
    while i < m.tables.len()
        invariant
            i <= m.tables@.len(),
            table_of(m@.tables, root, 0) == table_of(m@.tables, root, i as int),
        decreases m.tables@.len() - i,
    {
        assert(m@.tables[i as int] == m.tables@[i as int]@);
        if m.tables[i].root == root {
            return Some(i);
        }
        i = i + 1;
    }
    None
}

proof fn lemma_tables_update(before: Seq<TableView>, i: int, t: TableView)
    requires
        crate::machine::tables_ok(before),
        t.wf(),
        0 <= i < before.len(),
    ensures
        crate::machine::tables_ok(before.update(i, t)),
{
}

/// Adds a new empty table and returns its root.
pub fn try_create_table(m: &mut Machine) -> (r: Option<u64>)
    requires
        old(m)@.wf(),
    ensures
        (final(m)@, r) == old(m)@.new_table(),
        final(m)@.wf(),
{
    proof {
        reveal(MachineView::new_table);
    }
    let page: Option<u64> = physical::alloc_page(&mut m.k.mem);
    match page {
        None => None,
        Some(root) => {
            let table: PageTable = PageTable::empty(root);
            m.tables.push(table);
            m.ops.push(HwOp::Zero { pa: root, bytes: 4096 });
            assert(m@.tables =~= old(m)@.tables.push(table@));
            Some(root)
        },
    }
}

/// Adds a new empty table and returns its root; the kernel cannot start without it.
pub fn create_table(m: &mut Machine) -> (r: Result<u64, Fault>)
    requires
        old(m)@.wf(),
    ensures
        final(m)@ == old(m)@.new_table().0,
        r == match old(m)@.new_table().1 {
            Some(root) => Ok::<u64, Fault>(root),
            None => Err::<u64, Fault>(Fault::NoTableMemory),
        },
        final(m)@.wf(),
{
    match try_create_table(m) {
        Some(root) => Ok(root),
        None => Err(Fault::NoTableMemory),
    }
}

fn build_l2(m: &mut Machine, i: usize, va: u64) -> (r: Option<MapError>)
    requires
        old(m)@.wf(),
        i < old(m)@.tables.len(),
    ensures
        (final(m)@, r) == old(m)@.build_l2(i as int, va as int),
        final(m)@.wf(),
        final(m)@.tables.len() == old(m)@.tables.len(),
        final(m)@.tables[i as int].root == old(m)@.tables[i as int].root,
        r is None ==> final(m)@.tables[i as int].kind1(va as int) is Table,
{
    assert(m@.tables[i as int] == m.tables@[i as int]@);
    assert(m@.tables[i as int].wf());
    match m.tables[i].kind1(va) {
        Kind::Table(_) => None,
        Kind::Block => Some(MapError::Conflict),
        Kind::Empty => {
            let page: Option<u64> = physical::alloc_page(&mut m.k.mem);
            match page {
                None => Some(MapError::NoMemory),
                Some(pa) => {
                    let root: u64 = m.tables[i].root;
                    m.tables[i].add_l2(va, pa);
                    proof {
                        let t = old(m)@.tables[i as int].with_l2(va as int, pa);
                        assert(m@.tables =~= old(m)@.tables.update(i as int, t));
                        lemma_tables_update(old(m)@.tables, i as int, t);
                    }
                    m.ops.push(HwOp::Zero { pa, bytes: 4096 });
                    m.ops.push(
                        HwOp::Store { pa: root + l1_index(va) as u64 * 8, word: pa | DESC_TABLE },
                    );
                    None
                },
            }
        },
    }
}

fn build_l3(m: &mut Machine, i: usize, va: u64) -> (r: Option<MapError>)
    requires
        old(m)@.wf(),
        i < old(m)@.tables.len(),
        old(m)@.tables[i as int].kind1(va as int) is Table,
    ensures
        (final(m)@, r) == old(m)@.build_l3(i as int, va as int),
        final(m)@.wf(),
        final(m)@.tables.len() == old(m)@.tables.len(),
        final(m)@.tables[i as int].root == old(m)@.tables[i as int].root,
        r is None ==> final(m)@.tables[i as int].kind2(va as int) is Table,
{
    assert(m@.tables[i as int] == m.tables@[i as int]@);
    assert(m@.tables[i as int].wf());
    match m.tables[i].kind2(va) {
        Kind::Table(_) => None,
        Kind::Block => Some(MapError::Conflict),
        Kind::Empty => {
            let page: Option<u64> = physical::alloc_page(&mut m.k.mem);
            match page {
                None => Some(MapError::NoMemory),
                Some(pa) => {
                    let l2: u64 = match m.tables[i].kind1(va) {
                        Kind::Table(l2) => l2,
                        _ => 0,
                    };
                    proof {
                        let slot = old(m)@.tables[i as int].slots[l1_of(va as int)];
                        assert(slot->Table_0.wf());
                    }
                    m.tables[i].add_l3(va, pa);
                    proof {
                        let t = old(m)@.tables[i as int].with_l3(va as int, pa);
                        assert(m@.tables =~= old(m)@.tables.update(i as int, t));
                        lemma_tables_update(old(m)@.tables, i as int, t);
                    }
                    m.ops.push(HwOp::Zero { pa, bytes: 4096 });
                    m.ops.push(
                        HwOp::Store { pa: l2 + l2_index(va) as u64 * 8, word: pa | DESC_TABLE },
                    );
                    None
                },
            }
        },
    }
}

fn build(m: &mut Machine, i: usize, va: u64) -> (r: Option<MapError>)
    requires
        old(m)@.wf(),
        i < old(m)@.tables.len(),
    ensures
        (final(m)@, r) == old(m)@.build(i as int, va as int),
        final(m)@.wf(),
        final(m)@.tables.len() == old(m)@.tables.len(),
        final(m)@.tables[i as int].root == old(m)@.tables[i as int].root,
        r is None ==> final(m)@.tables[i as int].kind2(va as int) is Table,
{
    proof {
        reveal(MachineView::build);
    }
    match build_l2(m, i, va) {
        Some(error) => Some(error),
        None => build_l3(m, i, va),
    }
}

fn put_leaf(m: &mut Machine, i: usize, va: u64, word: u64)
    requires
        old(m)@.wf(),
        i < old(m)@.tables.len(),
        old(m)@.tables[i as int].kind2(va as int) is Table,
    ensures
        final(m)@ == old(m)@.put_leaf(i as int, va as int, word),
        final(m)@.wf(),
{
    assert(m@.tables[i as int] == m.tables@[i as int]@);
    assert(m@.tables[i as int].wf());
    let l3: u64 = match m.tables[i].kind2(va) {
        Kind::Table(l3) => l3,
        _ => 0,
    };
    proof {
        let slot = old(m)@.tables[i as int].slots[l1_of(va as int)];
        assert(slot->Table_0.wf());
        assert(slot->Table_0.slots[l2_of(va as int)] is Table);
    }
    m.tables[i].set_leaf(va, word);
    proof {
        let t = old(m)@.tables[i as int].with_leaf(va as int, word);
        assert(m@.tables =~= old(m)@.tables.update(i as int, t));
        lemma_tables_update(old(m)@.tables, i as int, t);
    }
    m.ops.push(HwOp::Store { pa: l3 + l3_index(va) as u64 * 8, word });
}

fn map_one(m: &mut Machine, root: u64, va: u64, pa: u64, flags: u64) -> (r: Option<Fault>)
    requires
        old(m)@.wf(),
    ensures
        (final(m)@, r) == old(m)@.map_one(root, va as int, pa, flags),
        final(m)@.wf(),
{
    let i: usize = match find_table(m, root) {
        None => {
            return Some(Fault::BlockInTheWay);
        },
        Some(i) => i,
    };
    match build(m, i, va) {
        Some(MapError::Conflict) => Some(Fault::BlockInTheWay),
        Some(MapError::NoMemory) => Some(Fault::NoTableMemory),
        None => {
            put_leaf(m, i, va, (pa & !0xfff) | flags | DESC_PAGE);
            None
        },
    }
}

fn map_one_checked(m: &mut Machine, root: u64, va: u64, pa: u64, flags: u64) -> (r: Option<MapError>)
    requires
        old(m)@.wf(),
    ensures
        (final(m)@, r) == old(m)@.map_one_checked(root, va as int, pa, flags),
        final(m)@.wf(),
{
    let i: usize = match find_table(m, root) {
        None => {
            return Some(MapError::Conflict);
        },
        Some(i) => i,
    };
    match build(m, i, va) {
        Some(error) => Some(error),
        None => {
            assert(m@.tables[i as int] == m.tables@[i as int]@);
            assert(m@.tables[i as int].wf());
            if (m.tables[i].leaf(va) & 0b11) == DESC_PAGE {
                return Some(MapError::Conflict);
            }
            put_leaf(m, i, va, (pa & !0xfff) | flags | DESC_PAGE);
            None
        },
    }
}

/// Maps `count` pages, contiguous on both sides, over whatever was mapped there.
pub fn map(m: &mut Machine, root: u64, va: u64, pa: u64, flags: u64, count: u64) -> (r: Result<
    (),
    Fault,
>)
    requires
        old(m)@.wf(),
        va + count * 4096 <= 0x1_0000_0000_0000_0000,
        pa + count * 4096 <= 0x1_0000_0000_0000_0000,
    ensures
        final(m)@ == old(m)@.map_run(root, va as int, pa as int, flags, count as int).0,
        r == match old(m)@.map_run(root, va as int, pa as int, flags, count as int).1 {
            None => Ok::<(), Fault>(()),
            Some(fault) => Err::<(), Fault>(fault),
        },
        final(m)@.wf(),
{
    proof {
        reveal(MachineView::map_run);
    }
    let mut i: u64 = 0;
    while i < count
        invariant
            i <= count,
            m@.wf(),
            va + count * 4096 <= 0x1_0000_0000_0000_0000,
            pa + count * 4096 <= 0x1_0000_0000_0000_0000,
            (m@, None::<Fault>) == old(m)@.map_run(root, va as int, pa as int, flags, i as int),
        decreases count - i,
    {
        proof {
            reveal(MachineView::map_run);
        }
        let fault: Option<Fault> = map_one(m, root, va + i * 4096, pa + i * 4096, flags);
        if let Some(fault) = fault {
            proof {
                lemma_map_run_stops(
                    old(m)@,
                    root,
                    va as int,
                    pa as int,
                    flags,
                    i + 1,
                    count as int,
                );
            }
            return Err(fault);
        }
        i = i + 1;
    }
    Ok(())
}

proof fn lemma_map_run_stops(
    s: MachineView,
    root: u64,
    va: int,
    pa: int,
    flags: u64,
    n: int,
    count: int,
)
    requires
        0 <= n <= count,
        s.map_run(root, va, pa, flags, n).1 is Some,
    ensures
        s.map_run(root, va, pa, flags, count) == s.map_run(root, va, pa, flags, n),
    decreases count - n,
{
    reveal(MachineView::map_run);
    if n < count {
        lemma_map_run_stops(s, root, va, pa, flags, n, count - 1);
    }
}

proof fn lemma_checked_run_stops(
    s: MachineView,
    root: u64,
    va: int,
    pa: int,
    flags: u64,
    n: int,
    count: int,
)
    requires
        0 <= n <= count,
        s.checked_run(root, va, pa, flags, n).2 is Some,
    ensures
        s.checked_run(root, va, pa, flags, count) == s.checked_run(root, va, pa, flags, n),
    decreases count - n,
{
    if n < count {
        lemma_checked_run_stops(s, root, va, pa, flags, n, count - 1);
    }
}

/// Maps a run of pages only where nothing is mapped. On failure the descriptors that this call
/// wrote are cleared again; new empty tables stay and serve later mappings.
pub fn map_checked(m: &mut Machine, root: u64, va: u64, pa: u64, flags: u64, count: u64) -> (r:
    Result<(), MapError>)
    requires
        old(m)@.wf(),
        va + count * 4096 <= 0x1_0000_0000_0000_0000,
        pa + count * 4096 <= 0x1_0000_0000_0000_0000,
    ensures
        final(m)@ == old(m)@.map_checked(root, va as int, pa as int, flags, count as int).0,
        r == match old(m)@.map_checked(root, va as int, pa as int, flags, count as int).1 {
            None => Ok::<(), MapError>(()),
            Some(error) => Err::<(), MapError>(error),
        },
        final(m)@.wf(),
{
    proof {
        reveal(MachineView::map_checked);
    }
    if count == 0 || !range_unmapped(m, root, va, count) {
        return Err(MapError::Conflict);
    }
    let mut mapped: u64 = 0;
    while mapped < count
        invariant
            mapped <= count,
            m@.wf(),
            count > 0,
            old(m)@.run_unmapped(root, va as int, count as int),
            va + count * 4096 <= 0x1_0000_0000_0000_0000,
            pa + count * 4096 <= 0x1_0000_0000_0000_0000,
            (m@, mapped as int, None::<MapError>) == old(m)@.checked_run(
                root,
                va as int,
                pa as int,
                flags,
                mapped as int,
            ),
        decreases count - mapped,
    {
        let error: Option<MapError> = map_one_checked(
            m,
            root,
            va + mapped * 4096,
            pa + mapped * 4096,
            flags,
        );
        if let Some(error) = error {
            proof {
                reveal(MachineView::map_checked);
                lemma_checked_run_stops(
                    old(m)@,
                    root,
                    va as int,
                    pa as int,
                    flags,
                    mapped + 1,
                    count as int,
                );
            }
            unmap(m, root, va, mapped);
            if mapped != 0 {
                flush_el1_tlb_range(m, va, mapped);
            }
            return Err(error);
        }
        mapped = mapped + 1;
    }
    flush_el1_tlb_range(m, va, count);
    Ok(())
}

fn page_at(m: &Machine, root: u64, va: u64) -> (r: Option<u64>)
    requires
        m@.wf(),
    ensures
        r == m@.page_at(root, va as int),
{
    match find_table(m, root) {
        None => None,
        Some(i) => {
            assert(m@.tables[i as int].wf());
            let pte: u64 = m.tables[i].leaf(va);
            if (pte & 0b11) != DESC_PAGE {
                return None;
            }
            Some(pte)
        },
    }
}

/// The physical page that `va` is mapped to. Attribute bits above the address are left out.
pub fn mapped_pa(m: &Machine, root: u64, va: u64) -> (r: Option<u64>)
    requires
        m@.wf(),
    ensures
        r == match m@.page_at(root, va as int) {
            Some(word) => Some(word & OUTPUT_ADDRESS_MASK),
            None => None,
        },
{
    match page_at(m, root, va) {
        Some(pte) => Some(pte & OUTPUT_ADDRESS_MASK),
        None => None,
    }
}

/// Whether EL0 may execute at `va`.
pub fn is_user_executable(m: &Machine, root: u64, va: u64) -> (r: bool)
    requires
        m@.wf(),
    ensures
        r == m@.user_executable(root, va as int),
{
    proof {
        reveal(MachineView::user_executable);
    }
    match page_at(m, root, va) {
        Some(pte) => (pte & UXN) == 0,
        None => false,
    }
}

impl MachineView {
    #[verifier::opaque]
    pub open spec fn user_executable(self, root: u64, va: int) -> bool {
        match self.page_at(root, va) {
            Some(word) => word & UXN == 0,
            None => false,
        }
    }

    /// EL0 may access every page that holds a byte of `[va, va + len)`.
    #[verifier::opaque]
    pub open spec fn user_readable(self, root: u64, va: int, len: int) -> bool {
        forall|a: int|
            va <= a < va + len ==> match (#[trigger] self.page_at(root, a)) {
                Some(word) => word & EL0_ACCESS != 0,
                None => false,
            }
    }

    /// EL0 may write every page that holds a byte of `[va, va + len)`.
    #[verifier::opaque]
    pub open spec fn user_writable(self, root: u64, va: int, len: int) -> bool {
        forall|a: int|
            va <= a < va + len ==> match (#[trigger] self.page_at(root, a)) {
                Some(word) => word & EL0_ACCESS != 0 && word & READ_ONLY == 0,
                None => false,
            }
    }
}

/// Whether EL0 may read all of `[va, va + len)`.
pub fn is_user_readable(m: &Machine, root: u64, va: u64, len: u64) -> (r: bool)
    requires
        m@.wf(),
    ensures
        r == (va + len <= u64::MAX && m@.user_readable(root, va as int, len as int)),
{
    proof {
        reveal(MachineView::user_readable);
    }
    let end: u64 = match va.checked_add(len) {
        None => {
            return false;
        },
        Some(end) => end,
    };
    let mut a: u64 = va;
    while a < end
        invariant
            m@.wf(),
            va <= a <= end,
            end == va + len,
            forall|b: int|
                va <= b < a ==> match (#[trigger] m@.page_at(root, b)) {
                    Some(word) => word & EL0_ACCESS != 0,
                    None => false,
                },
        decreases end - a,
    {
        proof {
            reveal(MachineView::user_readable);
        }
        let ok: bool = match page_at(m, root, a) {
            Some(pte) => (pte & EL0_ACCESS) != 0,
            None => false,
        };
        if !ok {
            return false;
        }
        a = a + 1;
    }
    true
}

/// Whether EL0 may write all of `[va, va + len)`.
pub fn is_user_writable(m: &Machine, root: u64, va: u64, len: u64) -> (r: bool)
    requires
        m@.wf(),
    ensures
        r == (va + len <= u64::MAX && m@.user_writable(root, va as int, len as int)),
{
    proof {
        reveal(MachineView::user_writable);
    }
    let end: u64 = match va.checked_add(len) {
        None => {
            return false;
        },
        Some(end) => end,
    };
    let mut a: u64 = va;
    while a < end
        invariant
            m@.wf(),
            va <= a <= end,
            end == va + len,
            forall|b: int|
                va <= b < a ==> match (#[trigger] m@.page_at(root, b)) {
                    Some(word) => word & EL0_ACCESS != 0 && word & READ_ONLY == 0,
                    None => false,
                },
        decreases end - a,
    {
        proof {
            reveal(MachineView::user_writable);
        }
        let ok: bool = match page_at(m, root, a) {
            Some(pte) => (pte & EL0_ACCESS) != 0 && (pte & READ_ONLY) == 0,
            None => false,
        };
        if !ok {
            return false;
        }
        a = a + 1;
    }
    true
}

/// Whether no page of a run is mapped.
pub fn range_unmapped(m: &Machine, root: u64, va: u64, count: u64) -> (r: bool)
    requires
        m@.wf(),
        va + count * 4096 <= 0x1_0000_0000_0000_0000,
    ensures
        r == m@.run_unmapped(root, va as int, count as int),
{
    let mut index: u64 = 0;
    while index < count
        invariant
            m@.wf(),
            index <= count,
            va + count * 4096 <= 0x1_0000_0000_0000_0000,
            forall|j: int|
                0 <= j < index ==> (#[trigger] m@.page_at(root, va + j * 4096)) is None,
        decreases count - index,
    {
        if page_at(m, root, va + index * 4096).is_some() {
            assert(m@.page_at(root, va + index as int * 4096) is Some);
            return false;
        }
        index = index + 1;
    }
    true
}

/// Whether a run of pages maps exactly the run of physical pages that begins at `pa`.
pub fn range_matches(m: &Machine, root: u64, va: u64, pa: u64, count: u64) -> (r: bool)
    requires
        m@.wf(),
        va + count * 4096 <= 0x1_0000_0000_0000_0000,
        pa + count * 4096 <= 0x1_0000_0000_0000_0000,
    ensures
        r == m@.run_maps(root, va as int, pa as int, count as int),
{
    let mut index: u64 = 0;
    while index < count
        invariant
            m@.wf(),
            index <= count,
            va + count * 4096 <= 0x1_0000_0000_0000_0000,
            pa + count * 4096 <= 0x1_0000_0000_0000_0000,
            forall|j: int|
                0 <= j < index ==> match (#[trigger] m@.page_at(root, va + j * 4096)) {
                    Some(word) => word & OUTPUT_ADDRESS_MASK == pa + j * 4096,
                    None => false,
                },
        decreases count - index,
    {
        let matches: bool = match mapped_pa(m, root, va + index * 4096) {
            Some(found) => found == pa + index * 4096,
            None => false,
        };
        if !matches {
            assert(!match m@.page_at(root, va + index as int * 4096) {
                Some(word) => word & OUTPUT_ADDRESS_MASK == pa + index as int * 4096,
                None => false,
            });
            return false;
        }
        index = index + 1;
    }
    true
}

fn unmap_one(m: &mut Machine, root: u64, va: u64) -> (r: bool)
    requires
        old(m)@.wf(),
    ensures
        (final(m)@, r) == old(m)@.unmap_one(root, va as int),
        final(m)@.wf(),
{
    let i: usize = match find_table(m, root) {
        None => {
            return false;
        },
        Some(i) => i,
    };
    assert(m@.tables[i as int].wf());
    if (m.tables[i].leaf(va) & 0b11) != DESC_PAGE {
        return false;
    }
    assert(0u64 & 0b11 != 3) by (bit_vector);
    put_leaf(m, i, va, 0);
    true
}

/// Clears the descriptors of a run of pages; how many mapped a page. Neither the pages nor the
/// tables are given back.
pub fn unmap(m: &mut Machine, root: u64, va: u64, count: u64) -> (r: u64)
    requires
        old(m)@.wf(),
        va + count * 4096 <= 0x1_0000_0000_0000_0000,
    ensures
        final(m)@ == old(m)@.unmap_run(root, va as int, count as int).0,
        r == old(m)@.unmap_run(root, va as int, count as int).1,
        r <= count,
        final(m)@.wf(),
{
    proof {
        reveal(MachineView::unmap_run);
    }
    let mut removed: u64 = 0;
    let mut i: u64 = 0;
    while i < count
        invariant
            i <= count,
            removed <= i,
            m@.wf(),
            va + count * 4096 <= 0x1_0000_0000_0000_0000,
            (m@, removed as int) == old(m)@.unmap_run(root, va as int, i as int),
        decreases count - i,
    {
        proof {
            reveal(MachineView::unmap_run);
        }
        if unmap_one(m, root, va + i * 4096) {
            removed = removed + 1;
        }
        i = i + 1;
    }
    removed
}

/// Clears a run of pages only if it still maps the expected physical run.
pub fn unmap_matching(m: &mut Machine, root: u64, va: u64, pa: u64, count: u64) -> (r: bool)
    requires
        old(m)@.wf(),
        va + count * 4096 <= 0x1_0000_0000_0000_0000,
        pa + count * 4096 <= 0x1_0000_0000_0000_0000,
    ensures
        if count == 0 || !old(m)@.run_maps(root, va as int, pa as int, count as int) {
            !r && final(m)@ == old(m)@
        } else {
            final(m)@ == old(m)@.unmap_run(root, va as int, count as int).0 && r == (old(
                m,
            )@.unmap_run(root, va as int, count as int).1 == count)
        },
        final(m)@.wf(),
{
    if count == 0 || !range_matches(m, root, va, pa, count) {
        return false;
    }
    unmap(m, root, va, count) == count
}

/// Maps the 2 MiB block that holds `va`, over whatever was mapped there.
pub fn map_block_2m(m: &mut Machine, root: u64, va: u64, pa: u64, flags: u64) -> (r: Result<
    (),
    Fault,
>)
    requires
        old(m)@.wf(),
        flags & 3 == 0,
    ensures
        final(m)@ == old(m)@.map_block(root, va as int, pa, flags).0,
        r == match old(m)@.map_block(root, va as int, pa, flags).1 {
            None => Ok::<(), Fault>(()),
            Some(fault) => Err::<(), Fault>(fault),
        },
        final(m)@.wf(),
{
    proof {
        reveal(MachineView::map_block);
    }
    let i: usize = match find_table(m, root) {
        None => {
            return Err(Fault::BlockInTheWay);
        },
        Some(i) => i,
    };
    match build_l2(m, i, va) {
        Some(MapError::Conflict) => Err(Fault::BlockInTheWay),
        Some(MapError::NoMemory) => Err(Fault::NoTableMemory),
        None => {
            let ghost between = m@;
            let word: u64 = (pa & !0x1f_ffff) | flags | DESC_BLOCK;
            assert(((pa & !0x1f_ffffu64) | flags | 1) & 3 != 3) by (bit_vector)
                requires
                    flags & 3 == 0,
            ;
            assert(m@.tables[i as int] == m.tables@[i as int]@);
            assert(m@.tables[i as int].wf());
            let l2: u64 = match m.tables[i].kind1(va) {
                Kind::Table(l2) => l2,
                _ => 0,
            };
            proof {
                let slot = between.tables[i as int].slots[l1_of(va as int)];
                assert(slot->Table_0.wf());
            }
            m.tables[i].set_slot2(va, Slot2::Word(word));
            proof {
                let t = between.tables[i as int].with_slot2(va as int, Slot2View::Word(word));
                assert(m@.tables =~= between.tables.update(i as int, t));
                lemma_tables_update(between.tables, i as int, t);
            }
            m.ops.push(HwOp::Store { pa: l2 + l2_index(va) as u64 * 8, word });
            Ok(())
        },
    }
}

/// Maps a block like `map_block_2m`, but says by `false` that no page was left for a table.
pub fn try_map_block_2m(m: &mut Machine, root: u64, va: u64, pa: u64, flags: u64) -> (r: bool)
    requires
        old(m)@.wf(),
        flags & 3 == 0,
    ensures
        final(m)@ == old(m)@.map_block(root, va as int, pa, flags).0,
        r == (old(m)@.map_block(root, va as int, pa, flags).1 is None),
        final(m)@.wf(),
{
    proof {
        reveal(MachineView::map_block);
    }
    map_block_2m(m, root, va, pa, flags).is_ok()
}

pub fn active_table(m: &Machine) -> (r: u64)
    ensures
        r == m@.k.active_table,
{
    m.k.active_table
}

/// Drops every cached translation on all processors.
pub fn flush_el1_tlb(m: &mut Machine)
    ensures
        final(m)@ == old(m)@.op(HwOp::FlushTlb),
        old(m)@.wf() ==> final(m)@.wf(),
{
    m.ops.push(HwOp::FlushTlb);
}

/// Drops the cached translations of a run of pages. All of them go, on every processor.
pub fn flush_el1_tlb_range(m: &mut Machine, va: u64, pages: u64)
    ensures
        final(m)@ == old(m)@.op(HwOp::FlushTlb),
        old(m)@.wf() ==> final(m)@.wf(),
{
    m.ops.push(HwOp::FlushTlb);
}

/// Makes data that was written to the pages visible to instruction fetch.
pub fn sync_for_exec(m: &mut Machine, pa: u64, pages: u64)
    ensures
        final(m)@ == old(m)@.op(HwOp::SyncForExec { pa, pages }),
        old(m)@.wf() ==> final(m)@.wf(),
{
    m.ops.push(HwOp::SyncForExec { pa, pages });
}

/// Number of 2 MiB blocks that touch `[start, end)`.
pub open spec fn blocks_in(start: int, end: int) -> int {
    let first = start - start % 0x20_0000;
    let last = crate::util::round_up(end, 0x20_0000);
    if last > first {
        (last - first) / 0x20_0000
    } else {
        0
    }
}

/// Maps the blocks of `[start, end)` to themselves, except blocks that begin in the gap.
pub fn map_range_2m(
    m: &mut Machine,
    root: u64,
    start: u64,
    end: u64,
    flags: u64,
    skip_start: u64,
    skip_end: u64,
) -> (r: Result<(), Fault>)
    requires
        old(m)@.wf(),
        flags & 3 == 0,
        end <= u64::MAX - 0x1f_ffff,
    ensures
        ({
            let (s, fault) = old(m)@.map_blocks(
                root,
                start - start % 0x20_0000,
                flags,
                skip_start as int,
                skip_end as int,
                blocks_in(start as int, end as int),
            );
            &&& final(m)@ == s
            &&& r == match fault {
                None => Ok::<(), Fault>(()),
                Some(fault) => Err::<(), Fault>(fault),
            }
        }),
        final(m)@.wf(),
{
    proof {
        reveal(MachineView::map_blocks);
    }
    let first: u64 = start & !0x1f_ffff;
    let padded: u64 = end + 0x1f_ffff;
    let end_aligned: u64 = padded & !0x1f_ffff;
    assert(start & !0x1f_ffff == start - start % 0x20_0000) by (bit_vector);
    assert(padded & !0x1f_ffff == (padded / 0x20_0000) * 0x20_0000) by (bit_vector);
    let ghost total = blocks_in(start as int, end as int);
    let mut va: u64 = first;
    let ghost mut n: int = 0;
    proof {
        crate::util::lemma_round_up(end as int, 0x20_0000);
        assert(end_aligned == crate::util::round_up(end as int, 0x20_0000));
        assert(end_aligned > first ==> total * 0x20_0000 == end_aligned - first);
    }
    while va < end_aligned
        invariant
            m@.wf(),
            flags & 3 == 0,
            end_aligned <= 0xffff_ffff_ffe0_0000,
            total == blocks_in(start as int, end as int),
            first == start - start % 0x20_0000,
            0 <= n <= total,
            va == first + n * 0x20_0000,
            total > 0 ==> end_aligned == first + total * 0x20_0000,
            total == 0 ==> end_aligned <= first,
            (m@, None::<Fault>) == old(m)@.map_blocks(
                root,
                first as int,
                flags,
                skip_start as int,
                skip_end as int,
                n,
            ),
        decreases end_aligned - va,
    {
        proof {
            reveal(MachineView::map_blocks);
        }
        let ghost before = m@;
        let ghost at = first + (n + 1 - 1) * 0x20_0000;
        assert(at == va);
        if !(va >= skip_start && va < skip_end) {
            let mapped: Result<(), Fault> = map_block_2m(m, root, va, va, flags);
            assert((m@, match mapped {
                Ok(()) => None::<Fault>,
                Err(fault) => Some(fault),
            }) == before.map_block(root, at, at as u64, flags));
            assert(old(m)@.map_blocks(
                root,
                first as int,
                flags,
                skip_start as int,
                skip_end as int,
                n + 1,
            ) == before.map_block(root, at, at as u64, flags));
            if let Err(fault) = mapped {
                proof {
                    lemma_map_blocks_stops(
                        old(m)@,
                        root,
                        first as int,
                        flags,
                        skip_start as int,
                        skip_end as int,
                        n + 1,
                        total,
                    );
                }
                return Err(fault);
            }
        }
        proof {
            n = n + 1;
        }
        va = va + 0x20_0000;
    }
    assert(n == total);
    Ok(())
}

proof fn lemma_map_blocks_stops(
    s: MachineView,
    root: u64,
    va: int,
    flags: u64,
    skip_start: int,
    skip_end: int,
    n: int,
    count: int,
)
    requires
        0 <= n <= count,
        s.map_blocks(root, va, flags, skip_start, skip_end, n).1 is Some,
    ensures
        s.map_blocks(root, va, flags, skip_start, skip_end, count) == s.map_blocks(
            root,
            va,
            flags,
            skip_start,
            skip_end,
            n,
        ),
    decreases count - n,
{
    reveal(MachineView::map_blocks);
    if n < count {
        lemma_map_blocks_stops(s, root, va, flags, skip_start, skip_end, n, count - 1);
    }
}

impl Level2View {
    /// The physical pages of the third-level tables in the first `j` places.
    pub open spec fn l3_pages(self, j: int) -> Seq<u64>
        decreases j,
    {
        if j <= 0 {
            Seq::empty()
        } else {
            match self.slots[j - 1] {
                Slot2View::Word(_) => self.l3_pages(j - 1),
                Slot2View::Table(l3) => self.l3_pages(j - 1).push(l3.pa),
            }
        }
    }
}

impl TableView {
    /// The physical pages of all lower tables in the first `i` places.
    pub open spec fn lower_pages(self, i: int) -> Seq<u64>
        decreases i,
    {
        if i <= 0 {
            Seq::empty()
        } else {
            match self.slots[i - 1] {
                Slot1View::Word(_) => self.lower_pages(i - 1),
                Slot1View::Table(l2) => (self.lower_pages(i - 1) + l2.l3_pages(512)).push(l2.pa),
            }
        }
    }

    /// Every physical page that the table occupies.
    pub open spec fn all_pages(self) -> Seq<u64> {
        self.lower_pages(512).push(self.root)
    }
}

/// A page of a table can go back to the allocator.
pub open spec fn table_page_ok(pa: u64) -> bool {
    PhysicalMemory::returnable(pa, 1)
}

fn collect_l3(l2: &Level2, pages: &mut Vec<u64>)
    requires
        l2@.wf(),
        forall|n: int| 0 <= n < old(pages)@.len() ==> table_page_ok(#[trigger] old(pages)@[n]),
    ensures
        final(pages)@ == old(pages)@ + l2@.l3_pages(512),
        forall|n: int| 0 <= n < final(pages)@.len() ==> table_page_ok(#[trigger] final(pages)@[n]),
{
    let mut j: usize = 0;
    while j < 512
        invariant
            j <= 512,
            l2@.wf(),
            pages@ == old(pages)@ + l2@.l3_pages(j as int),
            forall|n: int| 0 <= n < pages@.len() ==> table_page_ok(#[trigger] pages@[n]),
        decreases 512 - j,
    {
        assert(l2@.slots[j as int] == l2.slots@[j as int]@);
        match &l2.slots[j] {
            Slot2::Word(_) => {},
            Slot2::Table(l3) => {
                pages.push(l3.pa);
            },
        }
        j = j + 1;
        assert(pages@ =~= old(pages)@ + l2@.l3_pages(j as int));
    }
}

/// Takes a table out of use and gives all its pages back. What the pages map is not touched.
pub fn destroy_table(m: &mut Machine, root: u64) -> (r: Result<(), Fault>)
    requires
        old(m)@.wf(),
    ensures
        match table_of(old(m)@.tables, root, 0) {
            None => r is Ok && final(m)@ == old(m)@,
            Some(i) => {
                let pages = old(m)@.tables[i].all_pages();
                let (mem, full) = old(m)@.k.mem.freed_each(pages, pages.len() as int);
                &&& final(m)@ == (MachineView {
                    tables: old(m)@.tables.remove(i),
                    ..old(m)@
                }).with_mem(mem)
                &&& r == if full {
                    Err::<(), Fault>(Fault::RangeTableFull)
                } else {
                    Ok::<(), Fault>(())
                }
            },
        },
        final(m)@.wf(),
{
    let i: usize = match find_table(m, root) {
        None => {
            return Ok(());
        },
        Some(i) => i,
    };
    let ghost before = m@.tables;
    assert(m@.tables[i as int].wf());
    let table: PageTable = m.tables.remove(i);
    let mut pages: Vec<u64> = Vec::new();
    let mut n: usize = 0;
    while n < 512
        invariant
            n <= 512,
            table@.wf(),
            pages@ == table@.lower_pages(n as int),
            forall|k: int| 0 <= k < pages@.len() ==> table_page_ok(#[trigger] pages@[k]),
        decreases 512 - n,
    {
        assert(table@.slots[n as int] == table.slots@[n as int]@);
        match &table.slots[n] {
            Slot1::Word(_) => {},
            Slot1::Table(l2) => {
                collect_l3(l2, &mut pages);
                pages.push(l2.pa);
            },
        }
        n = n + 1;
    }
    pages.push(table.root);
    proof {
        assert(m@.tables =~= before.remove(i as int));
        assert forall|k: int| 0 <= k < m@.tables.len() implies (#[trigger] m@.tables[k]).wf() by {
            assert(before[if k < i {
                k
            } else {
                k + 1
            }].wf());
        }
    }
    match physical::free_each(&mut m.k.mem, &pages) {
        Ok(()) => Ok(()),
        Err(_) => Err(Fault::RangeTableFull),
    }
}

/// Makes `root` the active table.
pub fn activate(m: &mut Machine, root: u64)
    ensures
        final(m)@ == (MachineView {
            k: Kernel { active_table: root, ..old(m)@.k },
            ..old(m)@
        }).op(HwOp::SwitchTable { root, asid: 0 }),
        old(m)@.wf() ==> final(m)@.wf(),
{
    m.k.active_table = root;
    m.ops.push(HwOp::SwitchTable { root, asid: 0 });
}

// ---- what mapping and unmapping mean for single pages ----

proof fn lemma_indices(va: int)
    ensures
        0 <= l1_of(va) < 512,
        0 <= l2_of(va) < 512,
        0 <= l3_of(va) < 512,
{
}

impl MachineView {
    /// The part of the state that mapping relies on is sound.
    pub open spec fn paging_ok(self) -> bool {
        crate::machine::tables_ok(self.tables) && self.k.mem.wf()
    }
}

/// Building the lower levels for one address maps and unmaps nothing.
proof fn lemma_build_keeps_pages(s: MachineView, i: int, va: int)
    requires
        s.paging_ok(),
        0 <= i < s.tables.len(),
    ensures
        s.build(i, va).0.paging_ok(),
        s.build(i, va).0.tables.len() == s.tables.len(),
        forall|j: int|
            0 <= j < s.tables.len() ==> (#[trigger] s.build(i, va).0.tables[j]).root
                == s.tables[j].root,
        forall|j: int, a: int|
            0 <= j < s.tables.len() ==> (#[trigger] s.build(i, va).0.tables[j].page(a))
                == s.tables[j].page(a),
        s.build(i, va).1 is None ==> s.build(i, va).0.tables[i].kind2(va) is Table,
        s.build(i, va).0.tables[i].wf(),
{
    reveal(MachineView::build);
    let (s2, e2) = s.build_l2(i, va);
    let (s3, e3) = s.build(i, va);
    let t = s.tables[i];
    assert(t.wf());
    assert(0u64 & 3 != 3) by (bit_vector);
    lemma_indices(va);
    lemma_page_alloc_ok(s.k.mem);
    if e2 is None && t.kind1(va) is Empty {
        let t2 = s2.tables[i];
        assert(t2 == t.with_l2(va, s.k.mem.page_alloc().1->0));
        assert forall|a: int| (#[trigger] t2.page(a)) == t.page(a) by {
            lemma_indices(a);
        }
        assert(t2.wf());
    }
    let t2 = s2.tables[i];
    assert(forall|a: int| (#[trigger] t2.page(a)) == t.page(a));
    assert(t2.wf());
    if e2 is None {
        assert(t2.kind1(va) is Table);
        lemma_page_alloc_ok(s2.k.mem);
        if t2.kind2(va) is Empty && e3 is None {
            let t3 = s3.tables[i];
            let pa = s2.k.mem.page_alloc().1->0;
            assert(t3 == t2.with_l3(va, pa));
            assert forall|a: int| (#[trigger] t3.page(a)) == t2.page(a) by {
                lemma_indices(a);
            }
            let l2 = t2.slots[l1_of(va)]->Table_0;
            assert(l2.wf());
            assert(t3.wf());
        }
    }
}

proof fn lemma_page_alloc_ok(mem: PhysicalMemory)
    requires
        mem.wf(),
    ensures
        mem.page_alloc().0.wf(),
        match mem.page_alloc().1 {
            Some(pa) => pa % 4096 == 0 && pa < PHYSICAL_LIMIT,
            None => true,
        },
{
    physical::lemma_pages_alloc_ok(mem, 1);
}

/// A page descriptor that is put in place is the one that is found there; the descriptors of
/// all other pages stay.
proof fn lemma_put_leaf(t: TableView, va: int, word: u64)
    requires
        t.wf(),
        t.kind2(va) is Table,
    ensures
        t.with_leaf(va, word).wf(),
        t.with_leaf(va, word).root == t.root,
        t.with_leaf(va, word).leaf(va) == word,
        t.with_leaf(va, word).kind2(va) == t.kind2(va),
        forall|a: int| !same_page(a, va) ==> (#[trigger] t.with_leaf(va, word).leaf(a)) == t.leaf(a),
{
    lemma_indices(va);
    let n = t.with_leaf(va, word);
    let l2 = t.slots[l1_of(va)]->Table_0;
    assert(l2.wf());
    let l3 = l2.slots[l2_of(va)]->Table_0;
    assert(l3.entries.len() == 512);
    assert forall|a: int| !same_page(a, va) implies (#[trigger] n.leaf(a)) == t.leaf(a) by {
        lemma_indices(a);
    }
    let n2 = n.slots[l1_of(va)]->Table_0;
    assert(n2.wf());
    assert forall|i: int| 0 <= i < 512 implies match (#[trigger] n.slots[i]) {
        Slot1View::Table(l2) => l2.wf(),
        Slot1View::Word(w) => w & 3 != 3,
    } by {
        assert(match t.slots[i] {
            Slot1View::Table(l2) => l2.wf(),
            Slot1View::Word(w) => w & 3 != 3,
        });
    }
}

/// Pages below the 39-bit limit are told apart by their indices.
proof fn lemma_same_page(a: int, b: int)
    requires
        0 <= a < 0x80_0000_0000,
        0 <= b < 0x80_0000_0000,
        same_page(a, b),
    ensures
        a / 4096 == b / 4096,
{
    vstd::arithmetic::div_mod::lemma_div_denominator(a, 4096, 512);
    vstd::arithmetic::div_mod::lemma_div_denominator(a, 0x20_0000, 512);
    vstd::arithmetic::div_mod::lemma_div_denominator(b, 4096, 512);
    vstd::arithmetic::div_mod::lemma_div_denominator(b, 0x20_0000, 512);
    let pa = a / 4096;
    let pb = b / 4096;
    let qa = a / 0x20_0000;
    let qb = b / 0x20_0000;
    assert(pa / 512 == qa && pb / 512 == qb);
    assert(qa / 512 == a / 0x4000_0000 && qb / 512 == b / 0x4000_0000);
    assert(qa == qb);
}

/// Different pages of one run have different descriptors.
proof fn lemma_run_pages_differ(va: int, count: int, i: int, j: int)
    requires
        0 <= va,
        va + count * 4096 <= 0x80_0000_0000,
        0 <= i < count,
        0 <= j < count,
        i != j,
    ensures
        !same_page(va + i * 4096, va + j * 4096),
{
    if same_page(va + i * 4096, va + j * 4096) {
        lemma_same_page(va + i * 4096, va + j * 4096);
    }
}

proof fn lemma_same_leaf(t: TableView, a: int, b: int)
    requires
        same_page(a, b),
    ensures
        t.leaf(a) == t.leaf(b),
        t.page(a) == t.page(b),
{
}

/// What putting one descriptor in place means for every root and address.
proof fn lemma_put_leaf_pages(s: MachineView, i: int, root: u64, va: int, word: u64)
    requires
        s.paging_ok(),
        table_of(s.tables, root, 0) == Some(i),
        s.tables[i].kind2(va) is Table,
    ensures
        s.put_leaf(i, va, word).paging_ok(),
        table_of(s.put_leaf(i, va, word).tables, root, 0) == Some(i),
        s.put_leaf(i, va, word).page_at(root, va) == if word & 0b11 == DESC_PAGE {
            Some(word)
        } else {
            None
        },
        forall|r: u64, a: int|
            !(r == root && same_page(a, va)) ==> (#[trigger] s.put_leaf(i, va, word).page_at(r, a))
                == s.page_at(r, a),
        forall|a: int|
            same_page(a, va) ==> (#[trigger] s.put_leaf(i, va, word).page_at(root, a))
                == s.put_leaf(i, va, word).page_at(root, va),
{
    lemma_table_of(s.tables, root, 0);
    let n = s.put_leaf(i, va, word);
    assert(s.tables[i].wf());
    lemma_put_leaf(s.tables[i], va, word);
    let t = s.tables[i].with_leaf(va, word);
    assert(n.tables == s.tables.update(i, t));
    lemma_tables_update(s.tables, i, t);
    lemma_table_of_update(s.tables, i, t, root, 0);
    assert forall|r: u64, a: int| !(r == root && same_page(a, va)) implies (
    #[trigger] n.page_at(r, a)) == s.page_at(r, a) by {
        lemma_table_of_update(s.tables, i, t, r, 0);
        lemma_table_of(s.tables, r, 0);
        if r == root {
            assert(t.leaf(a) == s.tables[i].leaf(a));
        }
    }
    assert forall|a: int| same_page(a, va) implies (#[trigger] n.page_at(root, a)) == n.page_at(
        root,
        va,
    ) by {
        lemma_same_leaf(t, a, va);
    }
}

proof fn lemma_build_pages(s: MachineView, i: int, root: u64, va: int)
    requires
        s.paging_ok(),
        table_of(s.tables, root, 0) == Some(i),
    ensures
        s.build(i, va).0.paging_ok(),
        table_of(s.build(i, va).0.tables, root, 0) == Some(i),
        forall|r: u64, a: int|
            (#[trigger] s.build(i, va).0.page_at(r, a)) == s.page_at(r, a),
        s.build(i, va).1 is None ==> s.build(i, va).0.tables[i].kind2(va) is Table,
{
    lemma_table_of(s.tables, root, 0);
    lemma_build_keeps_pages(s, i, va);
    let n = s.build(i, va).0;
    assert forall|r: u64| table_of(n.tables, r, 0) == table_of(s.tables, r, 0) by {
        lemma_same_roots(s.tables, n.tables, r, 0);
    }
    assert forall|r: u64, a: int| (#[trigger] n.page_at(r, a)) == s.page_at(r, a) by {
        lemma_same_roots(s.tables, n.tables, r, 0);
        lemma_table_of(s.tables, r, 0);
        if let Some(j) = table_of(s.tables, r, 0) {
            assert(n.tables[j].page(a) == s.tables[j].page(a));
        }
    }
}

proof fn lemma_same_roots(a: Seq<TableView>, b: Seq<TableView>, root: u64, from: int)
    requires
        a.len() == b.len(),
        forall|j: int| 0 <= j < a.len() ==> (#[trigger] b[j]).root == a[j].root,
        0 <= from,
    ensures
        table_of(b, root, from) == table_of(a, root, from),
    decreases a.len() - from,
{
    if from < a.len() {
        assert(b[from].root == a[from].root);
        lemma_same_roots(a, b, root, from + 1);
    }
}

/// Mapping one page with checks: it succeeds only where nothing was mapped, it then maps exactly
/// that page, and a failure changes no mapping at all.
pub proof fn law_map_one_checked(s: MachineView, root: u64, va: int, pa: u64, flags: u64)
    requires
        s.paging_ok(),
    ensures
        ({
            let (n, error) = s.map_one_checked(root, va, pa, flags);
            &&& n.paging_ok()
            &&& error is Some ==> forall|r: u64, a: int|
                (#[trigger] n.page_at(r, a)) == s.page_at(r, a)
            &&& error is None ==> s.page_at(root, va) is None && n.page_at(root, va) == Some(
                page_word(pa, flags),
            )
            &&& error is None ==> forall|r: u64, a: int|
                !(r == root && same_page(a, va)) ==> (#[trigger] n.page_at(r, a)) == s.page_at(r, a)
            &&& s.page_at(root, va) is Some ==> error is Some
        }),
{
    if let Some(i) = table_of(s.tables, root, 0) {
        lemma_table_of(s.tables, root, 0);
        lemma_build_pages(s, i, root, va);
        let (b, error) = s.build(i, va);
        assert(b.page_at(root, va) == s.page_at(root, va));
        if error is None && b.tables[i].page(va) is None {
            lemma_put_leaf_pages(b, i, root, va, page_word(pa, flags));
            let base = pa & !0xfffu64;
            assert((base | flags | 3) & 3 == 3) by (bit_vector);
        }
    }
}

/// Unmapping one page takes exactly that page away.
pub proof fn law_unmap_one(s: MachineView, root: u64, va: int)
    requires
        s.paging_ok(),
    ensures
        ({
            let (n, was) = s.unmap_one(root, va);
            &&& n.paging_ok()
            &&& was == (s.page_at(root, va) is Some)
            &&& forall|r: u64, a: int|
                (#[trigger] n.page_at(r, a)) == if r == root && same_page(a, va) {
                    None
                } else {
                    s.page_at(r, a)
                }
        }),
{
    assert(0u64 & 3 != 3) by (bit_vector);
    let (n, was) = s.unmap_one(root, va);
    if let Some(i) = table_of(s.tables, root, 0) {
        lemma_table_of(s.tables, root, 0);
        let t = s.tables[i];
        assert(t.wf());
        if t.page(va) is Some {
            assert(t.kind2(va) is Table);
            lemma_put_leaf_pages(s, i, root, va, 0);
        } else {
            assert forall|r: u64, a: int| (#[trigger] n.page_at(r, a)) == if r == root && same_page(
                a,
                va,
            ) {
                None
            } else {
                s.page_at(r, a)
            } by {
                if same_page(a, va) {
                    lemma_same_leaf(t, a, va);
                }
            }
        }
    }
}

/// `a` is translated by one of the first `n` page descriptors from `va` on.
pub open spec fn in_run(a: int, va: int, n: int) -> bool {
    exists|j: int| 0 <= j < n && same_page(a, #[trigger] page_va(va, j))
}

/// Address of page `j` of the run that begins at `va`.
pub open spec fn page_va(va: int, j: int) -> int {
    va + j * 4096
}

/// Unmapping a run takes exactly its pages away.
pub proof fn law_unmap_run(s: MachineView, root: u64, va: int, n: int)
    requires
        s.paging_ok(),
        0 <= n,
    ensures
        s.unmap_run(root, va, n).0.paging_ok(),
        forall|r: u64, a: int|
            (#[trigger] s.unmap_run(root, va, n).0.page_at(r, a)) == if r == root && in_run(
                a,
                va,
                n,
            ) {
                None
            } else {
                s.page_at(r, a)
            },
    decreases n,
{
    reveal(MachineView::unmap_run);
    if n > 0 {
        law_unmap_run(s, root, va, n - 1);
        let before = s.unmap_run(root, va, n - 1).0;
        law_unmap_one(before, root, va + (n - 1) * 4096);
        let after = s.unmap_run(root, va, n).0;
        assert forall|r: u64, a: int| (#[trigger] after.page_at(r, a)) == if r == root && in_run(
            a,
            va,
            n,
        ) {
            None
        } else {
            s.page_at(r, a)
        } by {
            assert(before.page_at(r, a) == if r == root && in_run(a, va, n - 1) {
                None
            } else {
                s.page_at(r, a)
            });
            let last = page_va(va, n - 1);
            if in_run(a, va, n - 1) {
                let j = choose|j: int| 0 <= j < n - 1 && same_page(a, #[trigger] page_va(va, j));
                assert(same_page(a, page_va(va, j)));
            }
            if in_run(a, va, n) {
                let j = choose|j: int| 0 <= j < n && same_page(a, #[trigger] page_va(va, j));
                if j < n - 1 {
                    assert(in_run(a, va, n - 1));
                }
            }
        }
    }
}

/// How many of the first `n` pages from `va` on are mapped under `root`.
pub open spec fn mapped_in_run(s: MachineView, root: u64, va: int, n: int) -> int
    decreases n,
{
    if n <= 0 {
        0
    } else {
        mapped_in_run(s, root, va, n - 1) + if s.page_at(root, page_va(va, n - 1)) is Some {
            1int
        } else {
            0
        }
    }
}

/// Number of pages that a translation table has descriptors for.
pub const TABLE_PAGES: u64 = 0x800_0000;

/// Two pages of a run that a table can hold have descriptors of their own.
proof fn lemma_pages_differ(va: int, j: int, k: int)
    requires
        0 <= j < k < j + TABLE_PAGES,
    ensures
        !same_page(page_va(va, k), page_va(va, j)),
{
    let a = page_va(va, j);
    let b = page_va(va, k);
    let p = a / 4096;
    let q = b / 4096;
    assert(q == p + (k - j));
    assert(a / 0x20_0000 == p / 512 && b / 0x20_0000 == q / 512);
    assert(a / 0x4000_0000 == (p / 512) / 512 && b / 0x4000_0000 == (q / 512) / 512);
    if same_page(b, a) {
        assert(p % 512 == q % 512);
        assert((p / 512) % 512 == (q / 512) % 512);
        assert(((p / 512) / 512) % 512 == ((q / 512) / 512) % 512);
    }
}

/// Unmapping a run counts the pages of it that were mapped, holes or not, as long as the run is
/// not longer than a table. It gives no memory back, neither of pages nor of tables.
pub proof fn law_unmap_counts_mapped(s: MachineView, root: u64, va: int, n: int)
    requires
        s.paging_ok(),
        0 <= n <= TABLE_PAGES,
    ensures
        s.unmap_run(root, va, n).1 == mapped_in_run(s, root, va, n),
        s.unmap_run(root, va, n).0.k == s.k,
        s.unmap_run(root, va, n).0.paging_ok(),
        forall|r: u64, a: int|
            (#[trigger] s.unmap_run(root, va, n).0.page_at(r, a)) == if r == root && in_run(
                a,
                va,
                n,
            ) {
                None
            } else {
                s.page_at(r, a)
            },
    decreases n,
{
    reveal(MachineView::unmap_run);
    law_unmap_run(s, root, va, n);
    if n > 0 {
        law_unmap_counts_mapped(s, root, va, n - 1);
        let before = s.unmap_run(root, va, n - 1).0;
        let last = page_va(va, n - 1);
        assert(!in_run(last, va, n - 1)) by {
            if in_run(last, va, n - 1) {
                let j = choose|j: int| 0 <= j < n - 1 && same_page(last, #[trigger] page_va(va, j));
                lemma_pages_differ(va, j, n - 1);
            }
        }
        assert(before.page_at(root, last) == s.page_at(root, last));
        law_unmap_one(before, root, last);
    }
}

/// How many pages a run of unmapped pages counts: all of them, if all were mapped.
proof fn lemma_unmap_counts(s: MachineView, root: u64, va: int, count: int, n: int)
    requires
        s.paging_ok(),
        0 <= n <= count,
        0 <= va,
        va + count * 4096 <= 0x80_0000_0000,
        forall|j: int| 0 <= j < count ==> (#[trigger] s.page_at(root, page_va(va, j))) is Some,
    ensures
        s.unmap_run(root, va, n).1 == n,
    decreases n,
{
    reveal(MachineView::unmap_run);
    if n > 0 {
        lemma_unmap_counts(s, root, va, count, n - 1);
        law_unmap_run(s, root, va, n - 1);
        let before = s.unmap_run(root, va, n - 1).0;
        let last = page_va(va, n - 1);
        assert(!in_run(last, va, n - 1)) by {
            if in_run(last, va, n - 1) {
                let j = choose|j: int| 0 <= j < n - 1 && same_page(last, #[trigger] page_va(va, j));
                lemma_run_pages_differ(va, count, n - 1, j);
            }
        }
        assert(before.page_at(root, last) == s.page_at(root, last));
        assert(s.page_at(root, page_va(va, n - 1)) is Some);
        law_unmap_one(before, root, last);
    }
}

/// After the first `n` checked mappings: what the run maps, and that nothing else changed.
proof fn lemma_checked_run(s: MachineView, root: u64, va: int, pa: int, flags: u64, n: int)
    requires
        s.paging_ok(),
        0 <= n,
        0 <= va,
        va + n * 4096 <= 0x80_0000_0000,
    ensures
        ({
            let (m, mapped, error) = s.checked_run(root, va, pa, flags, n);
            &&& m.paging_ok()
            &&& 0 <= mapped <= n
            &&& error is None ==> mapped == n
            &&& forall|j: int|
                0 <= j < mapped ==> (#[trigger] m.page_at(root, page_va(va, j))) == Some(
                    page_word((pa + j * 4096) as u64, flags),
                )
            &&& forall|j: int|
                0 <= j < mapped ==> (#[trigger] s.page_at(root, page_va(va, j))) is None
            &&& forall|r: u64, a: int|
                !(r == root && in_run(a, va, mapped)) ==> (#[trigger] m.page_at(r, a)) == s.page_at(
                    r,
                    a,
                )
        }),
    decreases n,
{
    if n > 0 {
        lemma_checked_run(s, root, va, pa, flags, n - 1);
        let (b, before, failed) = s.checked_run(root, va, pa, flags, n - 1);
        if failed is None {
            let last = page_va(va, n - 1);
            law_map_one_checked(b, root, last, (pa + (n - 1) * 4096) as u64, flags);
            let (m, error) = b.map_one_checked(
                root,
                va + (n - 1) * 4096,
                (pa + (n - 1) * 4096) as u64,
                flags,
            );
            assert(!in_run(last, va, n - 1)) by {
                if in_run(last, va, n - 1) {
                    let j = choose|j: int|
                        0 <= j < n - 1 && same_page(last, #[trigger] page_va(va, j));
                    lemma_run_pages_differ(va, n, n - 1, j);
                }
            }
            assert(b.page_at(root, last) == s.page_at(root, last));
            if error is None {
                assert forall|j: int| 0 <= j < n implies (#[trigger] m.page_at(root, page_va(va, j)))
                    == Some(page_word((pa + j * 4096) as u64, flags)) by {
                    if j < n - 1 {
                        lemma_run_pages_differ(va, n, j, n - 1);
                        assert(b.page_at(root, page_va(va, j)) == Some(
                            page_word((pa + j * 4096) as u64, flags),
                        ));
                    }
                }
                assert forall|j: int| 0 <= j < n implies (#[trigger] s.page_at(
                    root,
                    page_va(va, j),
                )) is None by {
                }
                assert forall|r: u64, a: int| !(r == root && in_run(a, va, n)) implies (
                #[trigger] m.page_at(r, a)) == s.page_at(r, a) by {
                    if r == root {
                        assert(!same_page(a, page_va(va, n - 1)));
                        assert(!in_run(a, va, n - 1)) by {
                            if in_run(a, va, n - 1) {
                                let j = choose|j: int|
                                    0 <= j < n - 1 && same_page(a, #[trigger] page_va(va, j));
                                assert(same_page(a, page_va(va, j)));
                            }
                        }
                    }
                    assert(b.page_at(r, a) == s.page_at(r, a));
                }
            } else {
                assert forall|j: int| 0 <= j < n - 1 implies (#[trigger] m.page_at(
                    root,
                    page_va(va, j),
                )) == Some(page_word((pa + j * 4096) as u64, flags)) by {
                    assert(m.page_at(root, page_va(va, j)) == b.page_at(root, page_va(va, j)));
                }
                assert forall|r: u64, a: int| !(r == root && in_run(a, va, n - 1)) implies (
                #[trigger] m.page_at(r, a)) == s.page_at(r, a) by {
                    assert(m.page_at(r, a) == b.page_at(r, a));
                }
            }
        }
    }
}

/// Mapping a run with checks is all or nothing: success maps exactly the run, each page to its
/// own physical page; failure leaves every mapping of every table as it was.
pub proof fn law_map_checked(s: MachineView, root: u64, va: int, pa: int, flags: u64, count: int)
    requires
        s.paging_ok(),
        0 <= count,
        0 <= va,
        va + count * 4096 <= 0x80_0000_0000,
    ensures
        ({
            let (m, error) = s.map_checked(root, va, pa, flags, count);
            &&& m.paging_ok()
            &&& error is Some ==> forall|r: u64, a: int|
                (#[trigger] m.page_at(r, a)) == s.page_at(r, a)
            &&& error is None ==> s.run_unmapped(root, va, count)
            &&& error is None ==> forall|j: int|
                0 <= j < count ==> (#[trigger] m.page_at(root, page_va(va, j))) == Some(
                    page_word((pa + j * 4096) as u64, flags),
                )
            &&& error is None ==> forall|r: u64, a: int|
                !(r == root && in_run(a, va, count)) ==> (#[trigger] m.page_at(r, a)) == s.page_at(
                    r,
                    a,
                )
        }),
{
    reveal(MachineView::map_checked);
    if count != 0 && s.run_unmapped(root, va, count) {
        lemma_checked_run(s, root, va, pa, flags, count);
        let (b, mapped, error) = s.checked_run(root, va, pa, flags, count);
        let (m, e) = s.map_checked(root, va, pa, flags, count);
        if error is Some {
            law_unmap_run(b, root, va, mapped);
            let u = b.unmap_run(root, va, mapped).0;
            assert forall|r: u64, a: int| (#[trigger] m.page_at(r, a)) == s.page_at(r, a) by {
                assert(m.tables == u.tables);
                assert(m.page_at(r, a) == u.page_at(r, a));
                if r == root && in_run(a, va, mapped) {
                    let j = choose|j: int| 0 <= j < mapped && same_page(a, #[trigger] page_va(va, j));
                    assert(s.page_at(root, page_va(va, j)) is None);
                    lemma_same_page_at(s, root, a, page_va(va, j));
                } else {
                    assert(b.page_at(r, a) == s.page_at(r, a));
                }
            }
        } else {
            assert forall|r: u64, a: int| (#[trigger] m.page_at(r, a)) == b.page_at(r, a) by {
                assert(m.tables == b.tables);
            }
            assert forall|j: int| 0 <= j < count implies (#[trigger] m.page_at(
                root,
                page_va(va, j),
            )) == Some(page_word((pa + j * 4096) as u64, flags)) by {
                assert(m.page_at(root, page_va(va, j)) == b.page_at(root, page_va(va, j)));
            }
        }
    }
}

pub(crate) proof fn lemma_same_page_at(s: MachineView, root: u64, a: int, b: int)
    requires
        same_page(a, b),
    ensures
        s.page_at(root, a) == s.page_at(root, b),
{
    if let Some(t) = s.table(root) {
        lemma_same_leaf(t, a, b);
    }
}

/// Unmapping undoes mapping: the run is counted in full and every mapping is as before.
pub proof fn law_unmap_undoes_map(
    s: MachineView,
    root: u64,
    va: int,
    pa: int,
    flags: u64,
    count: int,
)
    requires
        s.paging_ok(),
        0 <= count,
        0 <= va,
        va + count * 4096 <= 0x80_0000_0000,
        s.map_checked(root, va, pa, flags, count).1 is None,
    ensures
        ({
            let m = s.map_checked(root, va, pa, flags, count).0;
            let (u, removed) = m.unmap_run(root, va, count);
            &&& removed == count
            &&& forall|r: u64, a: int| (#[trigger] u.page_at(r, a)) == s.page_at(r, a)
        }),
{
    law_map_checked(s, root, va, pa, flags, count);
    let m = s.map_checked(root, va, pa, flags, count).0;
    law_unmap_run(m, root, va, count);
    lemma_unmap_counts(m, root, va, count, count);
    let u = m.unmap_run(root, va, count).0;
    assert forall|r: u64, a: int| (#[trigger] u.page_at(r, a)) == s.page_at(r, a) by {
        if r == root && in_run(a, va, count) {
            let j = choose|j: int| 0 <= j < count && same_page(a, #[trigger] page_va(va, j));
            assert(s.page_at(root, va + j * 4096) is None);
            lemma_same_page_at(s, root, a, page_va(va, j));
        } else {
            assert(m.page_at(r, a) == s.page_at(r, a));
        }
    }
}

/// A page descriptor gives back the physical address that it was made from, and none of the
/// preset attributes disturbs it.
pub proof fn law_descriptor_keeps_address(pa: u64, flags: u64)
    requires
        pa % 4096 == 0,
        pa < PHYSICAL_LIMIT,
        flags & OUTPUT_ADDRESS_MASK == 0,
    ensures
        page_word(pa, flags) & OUTPUT_ADDRESS_MASK == pa,
        page_word(pa, flags) & 0b11 == DESC_PAGE,
{
    assert(((pa & !0xfffu64) | flags | 3) & 0x0000_ffff_ffff_f000u64 == pa && ((pa & !0xfffu64)
        | flags | 3) & 3 == 3) by (bit_vector)
        requires
            pa % 4096 == 0,
            pa < 0x1_0000_0000_0000u64,
            flags & 0x0000_ffff_ffff_f000u64 == 0,
    ;
}

/// No preset for EL0 makes a page both writable and executable, and none for the kernel lets EL0
/// in.
pub proof fn law_presets(pa: u64)
    requires
        pa < PHYSICAL_LIMIT,
    ensures
        page_word(pa, MMU_USER_RX) & UXN == 0 && page_word(pa, MMU_USER_RX) & READ_ONLY != 0,
        page_word(pa, MMU_USER_RW) & UXN != 0 && page_word(pa, MMU_USER_RW) & READ_ONLY == 0,
        page_word(pa, MMU_USER_RO) & UXN != 0 && page_word(pa, MMU_USER_RO) & READ_ONLY != 0,
        page_word(pa, MMU_USER_DEV) & UXN != 0,
        page_word(pa, MMU_USER_DMA) & UXN != 0,
        page_word(pa, MMU_KERNEL) & EL0_ACCESS == 0,
        page_word(pa, MMU_DEV) & EL0_ACCESS == 0,
{
    assert(((pa & !0xfffu64) | 0x0020_0000_0000_07c0u64 | 3) & 0x0040_0000_0000_0000u64 == 0
            && ((pa & !0xfffu64) | 0x0020_0000_0000_07c0u64 | 3) & 0x80u64 != 0 && ((pa & !0xfffu64)
            | 0x0060_0000_0000_0740u64 | 3) & 0x0040_0000_0000_0000u64 != 0 && ((pa & !0xfffu64)
            | 0x0060_0000_0000_0740u64 | 3) & 0x80u64 == 0 && ((pa & !0xfffu64)
            | 0x0060_0000_0000_07c0u64 | 3) & 0x0040_0000_0000_0000u64 != 0 && ((pa & !0xfffu64)
            | 0x0060_0000_0000_07c0u64 | 3) & 0x80u64 != 0 && ((pa & !0xfffu64)
            | 0x0060_0000_0000_0644u64 | 3) & 0x0040_0000_0000_0000u64 != 0 && ((pa & !0xfffu64)
            | 0x0060_0000_0000_0748u64 | 3) & 0x0040_0000_0000_0000u64 != 0 && ((pa & !0xfffu64)
            | 0x0040_0000_0000_0700u64 | 3) & 0x40u64 == 0 && ((pa & !0xfffu64)
            | 0x0060_0000_0000_0604u64 | 3) & 0x40u64 == 0) by (bit_vector)
        requires
            pa < 0x1_0000_0000_0000u64,
    ;
}

/// The kernel's presets leave the kind bits of a descriptor alone.
pub(crate) proof fn lemma_kernel_presets()
    ensures
        MMU_KERNEL & 3 == 0,
        MMU_DEV & 3 == 0,
{
    assert(0x0040_0000_0000_0700u64 & 3 == 0 && 0x0060_0000_0000_0604u64 & 3 == 0) by (bit_vector);
}


/// Mapping one page without checks: success maps exactly that page, whatever was mapped there; a
/// failure changes no mapping at all.
pub proof fn law_map_one(s: MachineView, root: u64, va: int, pa: u64, flags: u64)
    requires
        s.paging_ok(),
    ensures
        ({
            let (n, fault) = s.map_one(root, va, pa, flags);
            &&& n.paging_ok()
            &&& fault is Some ==> forall|r: u64, a: int|
                (#[trigger] n.page_at(r, a)) == s.page_at(r, a)
            &&& fault is None ==> forall|r: u64, a: int|
                (#[trigger] n.page_at(r, a)) == if r == root && same_page(a, va) {
                    Some(page_word(pa, flags))
                } else {
                    s.page_at(r, a)
                }
        }),
{
    if let Some(i) = table_of(s.tables, root, 0) {
        lemma_table_of(s.tables, root, 0);
        lemma_build_pages(s, i, root, va);
        let (b, error) = s.build(i, va);
        if error is None {
            lemma_put_leaf_pages(b, i, root, va, page_word(pa, flags));
            let base = pa & !0xfffu64;
            assert((base | flags | 3) & 3 == 3) by (bit_vector);
        }
    }
}

/// Mapping a run without checks: success maps each page of the run to its own physical page, in
/// order, and touches no other; a failure touches no page outside the run.
pub proof fn law_map_run(s: MachineView, root: u64, va: int, pa: int, flags: u64, n: int)
    requires
        s.paging_ok(),
        0 <= n <= TABLE_PAGES,
    ensures
        ({
            let (m, fault) = s.map_run(root, va, pa, flags, n);
            &&& m.paging_ok()
            &&& fault is None ==> forall|j: int|
                0 <= j < n ==> (#[trigger] m.page_at(root, page_va(va, j))) == Some(
                    page_word((pa + j * 4096) as u64, flags),
                )
            &&& forall|r: u64, a: int|
                !(r == root && in_run(a, va, n)) ==> (#[trigger] m.page_at(r, a)) == s.page_at(
                    r,
                    a,
                )
        }),
    decreases n,
{
    reveal(MachineView::map_run);
    if n > 0 {
        law_map_run(s, root, va, pa, flags, n - 1);
        let (b, failed) = s.map_run(root, va, pa, flags, n - 1);
        let (m, fault) = s.map_run(root, va, pa, flags, n);
        let last = page_va(va, n - 1);
        if failed is None {
            law_map_one(b, root, last, (pa + (n - 1) * 4096) as u64, flags);
            if fault is None {
                assert forall|j: int| 0 <= j < n implies (#[trigger] m.page_at(root, page_va(va, j)))
                    == Some(page_word((pa + j * 4096) as u64, flags)) by {
                    if j < n - 1 {
                        lemma_pages_differ(va, j, n - 1);
                        assert(!same_page(page_va(va, j), last));
                        assert(b.page_at(root, page_va(va, j)) == Some(
                            page_word((pa + j * 4096) as u64, flags),
                        ));
                    }
                }
            }
        }
        assert forall|r: u64, a: int| !(r == root && in_run(a, va, n)) implies (
        #[trigger] m.page_at(r, a)) == s.page_at(r, a) by {
            if r == root {
                assert(!same_page(a, page_va(va, n - 1)));
                assert(!in_run(a, va, n - 1)) by {
                    if in_run(a, va, n - 1) {
                        let j = choose|j: int|
                            0 <= j < n - 1 && same_page(a, #[trigger] page_va(va, j));
                        assert(same_page(a, page_va(va, j)));
                    }
                }
            }
            assert(b.page_at(r, a) == s.page_at(r, a));
        }
    }
}

/// Addresses in one page have one descriptor.
pub(crate) proof fn lemma_in_one_page(a: int, b: int)
    requires
        a / 4096 == b / 4096,
    ensures
        same_page(a, b),
{
    assert(a / 0x20_0000 == (a / 4096) / 512 && b / 0x20_0000 == (b / 4096) / 512);
    assert(a / 0x4000_0000 == (a / 4096) / 0x4_0000 && b / 0x4000_0000 == (b / 4096) / 0x4_0000);
}

/// Among the addresses that a table translates, a run that begins with a page meets those from its
/// begin to its end and no others.
pub(crate) proof fn lemma_run_range(a: int, va: int, n: int)
    requires
        va % 4096 == 0,
        0 <= va,
        0 <= n,
        va + n * 4096 <= 0x80_0000_0000,
        0 <= a < 0x80_0000_0000,
    ensures
        in_run(a, va, n) <==> va <= a < va + n * 4096,
        va <= a < va + n * 4096 ==> same_page(a, page_va(va, (a - va) / 4096)),
{
    if va <= a < va + n * 4096 {
        let j = (a - va) / 4096;
        assert(0 <= j < n);
        assert(page_va(va, j) / 4096 == a / 4096) by {
            assert((a - va) / 4096 == a / 4096 - va / 4096);
        }
        lemma_in_one_page(a, page_va(va, j));
    }
    if in_run(a, va, n) {
        let j = choose|j: int| 0 <= j < n && same_page(a, #[trigger] page_va(va, j));
        lemma_same_page(a, page_va(va, j));
    }
}

/// Every byte of the run `[va, va + 4096 * n)` is translated to the byte at the same distance from
/// `pa`, and with these attributes.
pub open spec fn translates(s: MachineView, root: u64, va: int, pa: int, n: int, flags: u64)
    -> bool {
    forall|a: int|
        va <= a < va + n * 4096 ==> (#[trigger] s.page_at(root, a)) == Some(
            page_word((pa + (a - va) / 4096 * 4096) as u64, flags),
        )
}

/// A run whose pages are mapped in order is translated byte by byte.
pub(crate) proof fn lemma_translates(
    s: MachineView,
    root: u64,
    va: int,
    pa: int,
    n: int,
    flags: u64,
)
    requires
        va % 4096 == 0,
        0 <= va,
        0 <= n,
        va + n * 4096 <= 0x80_0000_0000,
        forall|j: int|
            0 <= j < n ==> (#[trigger] s.page_at(root, page_va(va, j))) == Some(
                page_word((pa + j * 4096) as u64, flags),
            ),
    ensures
        translates(s, root, va, pa, n, flags),
{
    assert forall|a: int| va <= a < va + n * 4096 implies (#[trigger] s.page_at(root, a)) == Some(
        page_word((pa + (a - va) / 4096 * 4096) as u64, flags),
    ) by {
        lemma_run_range(a, va, n);
        let j = (a - va) / 4096;
        lemma_same_page_at(s, root, a, page_va(va, j));
        assert(s.page_at(root, page_va(va, j)) == Some(
            page_word((pa + j * 4096) as u64, flags),
        ));
    }
}

/// Bits of a page descriptor as the processor reads them: EL0 has access if bit 6 is set, may
/// write if bit 7 is clear too, and may execute if bit 54 is clear. Bits 12 to 47 are the physical
/// page. Bits 2 to 4 choose the memory type: 0 is ordinary cached memory, 1 is a device, and 2 is
/// memory that is not cached.
pub open spec fn el0_may(word: u64, read: bool, write: bool, execute: bool) -> bool {
    &&& (word & 0x40 != 0) == read
    &&& (word & 0x40 != 0 && word & 0x80 == 0) == write
    &&& (word & 0x40 != 0 && word & 0x40_0000_0000_0000 == 0) == execute
}

/// The memory type that a descriptor chooses.
pub open spec fn memory_type(word: u64) -> u64 {
    (word & 0x1c) / 4
}

/// What each preset lets EL0 do, read off the descriptor itself. The physical page is the one that
/// the descriptor was made for.
pub proof fn law_presets_mean(pa: u64)
    requires
        pa % 4096 == 0,
        pa < PHYSICAL_LIMIT,
    ensures
        el0_may(page_word(pa, MMU_USER_RX), true, false, true),
        el0_may(page_word(pa, MMU_USER_RW), true, true, false),
        el0_may(page_word(pa, MMU_USER_RO), true, false, false),
        el0_may(page_word(pa, MMU_USER_DEV), true, true, false),
        el0_may(page_word(pa, MMU_USER_DMA), true, true, false),
        el0_may(page_word(pa, MMU_KERNEL), false, false, false),
        el0_may(page_word(pa, MMU_DEV), false, false, false),
        memory_type(page_word(pa, MMU_USER_RX)) == 0,
        memory_type(page_word(pa, MMU_USER_RW)) == 0,
        memory_type(page_word(pa, MMU_USER_RO)) == 0,
        memory_type(page_word(pa, MMU_USER_DEV)) == 1,
        memory_type(page_word(pa, MMU_USER_DMA)) == 2,
        page_word(pa, MMU_USER_RX) & 0xffff_ffff_f000 == pa,
        page_word(pa, MMU_USER_RW) & 0xffff_ffff_f000 == pa,
        page_word(pa, MMU_USER_RO) & 0xffff_ffff_f000 == pa,
        page_word(pa, MMU_USER_DEV) & 0xffff_ffff_f000 == pa,
        page_word(pa, MMU_USER_DMA) & 0xffff_ffff_f000 == pa,
{
    let rx = page_word(pa, MMU_USER_RX);
    let rw = page_word(pa, MMU_USER_RW);
    let ro = page_word(pa, MMU_USER_RO);
    let dev = page_word(pa, MMU_USER_DEV);
    let dma = page_word(pa, MMU_USER_DMA);
    let k = page_word(pa, MMU_KERNEL);
    let kd = page_word(pa, MMU_DEV);
    assert(rx & 0x40 != 0 && rx & 0x80 != 0 && rx & 0x40_0000_0000_0000 == 0 && rx & 0x1c == 0 && rx
        & 0xffff_ffff_f000 == pa && rw & 0x40 != 0 && rw & 0x80 == 0 && rw & 0x40_0000_0000_0000
        != 0 && rw & 0x1c == 0 && rw & 0xffff_ffff_f000 == pa && ro & 0x40 != 0 && ro & 0x80 != 0
        && ro & 0x40_0000_0000_0000 != 0 && ro & 0x1c == 0 && ro & 0xffff_ffff_f000 == pa && dev
        & 0x40 != 0 && dev & 0x80 == 0 && dev & 0x40_0000_0000_0000 != 0 && dev & 0x1c == 4 && dev
        & 0xffff_ffff_f000 == pa && dma & 0x40 != 0 && dma & 0x80 == 0 && dma
        & 0x40_0000_0000_0000 != 0 && dma & 0x1c == 8 && dma & 0xffff_ffff_f000 == pa && k & 0x40
        == 0 && kd & 0x40 == 0) by (bit_vector)
        requires
            pa % 4096 == 0,
            pa < 0x1_0000_0000_0000u64,
            rx == (pa & !0xfffu64) | 0x0020_0000_0000_07c0u64 | 3,
            rw == (pa & !0xfffu64) | 0x0060_0000_0000_0740u64 | 3,
            ro == (pa & !0xfffu64) | 0x0060_0000_0000_07c0u64 | 3,
            dev == (pa & !0xfffu64) | 0x0060_0000_0000_0644u64 | 3,
            dma == (pa & !0xfffu64) | 0x0060_0000_0000_0748u64 | 3,
            k == (pa & !0xfffu64) | 0x0040_0000_0000_0700u64 | 3,
            kd == (pa & !0xfffu64) | 0x0060_0000_0000_0604u64 | 3,
    ;
}

/// EL0 may execute, read or write at an address exactly if the descriptor there says so.
pub proof fn law_access_is_in_descriptor(s: MachineView, root: u64, a: int)
    ensures
        match s.page_at(root, a) {
            Some(word) => {
                &&& s.user_readable(root, a, 1) == (word & 0x40 != 0)
                &&& s.user_writable(root, a, 1) == (word & 0x40 != 0 && word & 0x80 == 0)
                &&& s.user_executable(root, a) == (word & 0x40_0000_0000_0000 == 0)
            },
            None => {
                &&& !s.user_readable(root, a, 1)
                &&& !s.user_writable(root, a, 1)
                &&& !s.user_executable(root, a)
            },
        },
{
    reveal(MachineView::user_executable);
    reveal(MachineView::user_readable);
    reveal(MachineView::user_writable);
}


impl TableView {
    /// The descriptor of the 2 MiB block that holds `va`, if a block is mapped there.
    pub open spec fn block(self, va: int) -> Option<u64> {
        match self.slots[l1_of(va)] {
            Slot1View::Word(w) => None,
            Slot1View::Table(l2) => match l2.slots[l2_of(va)] {
                Slot2View::Word(w) => if w != 0 {
                    Some(w)
                } else {
                    None
                },
                Slot2View::Table(l3) => None,
            },
        }
    }
}

impl MachineView {
    /// The descriptor of the 2 MiB block that holds `va` under `root`, if a block is mapped there.
    pub open spec fn block_at(self, root: u64, va: int) -> Option<u64> {
        match self.table(root) {
            Some(t) => t.block(va),
            None => None,
        }
    }
}

/// Both addresses are translated by the same block descriptor.
pub open spec fn same_block(a: int, b: int) -> bool {
    l1_of(a) == l1_of(b) && l2_of(a) == l2_of(b)
}

/// Addresses below the 39-bit limit are in the same block only if they are in the same 2 MiB.
pub(crate) proof fn lemma_same_block(a: int, b: int)
    requires
        0 <= a < 0x80_0000_0000,
        0 <= b < 0x80_0000_0000,
    ensures
        same_block(a, b) <==> a / 0x20_0000 == b / 0x20_0000,
{
    let qa = a / 0x20_0000;
    let qb = b / 0x20_0000;
    assert(qa / 512 == a / 0x4000_0000 && qb / 512 == b / 0x4000_0000);
}

/// Mapping a block: success puts the descriptor there, for EL1 or whomever the flags let in, and
/// touches no other block or page; a failure changes no translation.
#[verifier::spinoff_prover]
pub proof fn law_map_block(s: MachineView, root: u64, va: int, pa: u64, flags: u64)
    requires
        s.paging_ok(),
        flags & 3 == 0,
    ensures
        ({
            let (t, fault) = s.map_block(root, va, pa, flags);
            &&& t.paging_ok()
            &&& t.tables.len() == s.tables.len()
            &&& forall|r: u64, a: int|
                (#[trigger] t.block_at(r, a)) == if fault is None && r == root && same_block(a, va) {
                    Some(block_word(pa, flags))
                } else {
                    s.block_at(r, a)
                }
            &&& forall|r: u64, a: int|
                (#[trigger] t.page_at(r, a)) == if fault is None && r == root && same_block(a, va) {
                    None
                } else {
                    s.page_at(r, a)
                }
            &&& forall|r: u64| t.table(r) is Some <==> #[trigger] s.table(r) is Some
        }),
{
    reveal(MachineView::map_block);
    let (t, fault) = s.map_block(root, va, pa, flags);
    lemma_table_of(s.tables, root, 0);
    lemma_page_alloc_ok(s.k.mem);
    lemma_indices(va);
    let base = pa & !0x1f_ffffu64;
    assert((base | flags | 1) & 3 != 3 && (base | flags | 1) != 0 && 0u64 & 3 != 3) by (bit_vector)
        requires
            base == pa & !0x1f_ffffu64,
            flags & 3 == 0,
    ;
    if let Some(i) = table_of(s.tables, root, 0) {
        let old = s.tables[i];
        assert(old.wf());
        let (b, error) = s.build_l2(i, va);
        let mid = b.tables[i];
        assert(mid.wf() && mid.root == old.root);
        assert forall|a: int|
            (#[trigger] mid.block(a)) == old.block(a) && mid.page(a) == old.page(a) by {
            lemma_indices(a);
        }
        assert(forall|a: int| #[trigger] mid.page(a) == old.page(a)) by {
            assert forall|a: int| #[trigger] mid.page(a) == old.page(a) by {
                assert(mid.block(a) == old.block(a));
            }
        }
        assert(b.tables == s.tables || b.tables == s.tables.update(i, mid));
        let new = t.tables[i];
        if error is None {
            assert(mid.kind1(va) is Table);
            let l2 = mid.slots[l1_of(va)]->Table_0;
            assert(l2.wf());
            assert(new == mid.with_slot2(va, Slot2View::Word(block_word(pa, flags))));
            let n2 = new.slots[l1_of(va)]->Table_0;
            assert(n2.wf());
            assert forall|k: int| 0 <= k < 512 implies match (#[trigger] new.slots[k]) {
                Slot1View::Table(l2) => l2.wf(),
                Slot1View::Word(w) => w & 3 != 3,
            } by {
                assert(match mid.slots[k] {
                    Slot1View::Table(l2) => l2.wf(),
                    Slot1View::Word(w) => w & 3 != 3,
                });
            }
            assert(new.wf());
            assert forall|a: int|
                (#[trigger] new.block(a)) == (if same_block(a, va) {
                    Some(block_word(pa, flags))
                } else {
                    mid.block(a)
                }) && new.page(a) == (if same_block(a, va) {
                    None
                } else {
                    mid.page(a)
                }) by {
                lemma_indices(a);
            }
        } else {
            assert(new == old);
        }
        assert(t.tables =~= s.tables.update(i, new));
        assert(new.root == old.root);
        lemma_tables_update(s.tables, i, new);
        assert forall|r: u64| table_of(t.tables, r, 0) == #[trigger] table_of(s.tables, r, 0) by {
            lemma_table_of_update(s.tables, i, new, r, 0);
        }
        assert forall|r: u64| t.table(r) is Some <==> #[trigger] s.table(r) is Some by {
            assert(table_of(t.tables, r, 0) == table_of(s.tables, r, 0));
        }
        assert forall|r: u64, a: int|
            (#[trigger] t.block_at(r, a)) == if fault is None && r == root && same_block(a, va) {
                Some(block_word(pa, flags))
            } else {
                s.block_at(r, a)
            } by {
            assert(table_of(t.tables, r, 0) == table_of(s.tables, r, 0));
            lemma_table_of(s.tables, r, 0);
            assert(mid.block(a) == old.block(a));
            assert(error is None ==> new.block(a) == (if same_block(a, va) {
                Some(block_word(pa, flags))
            } else {
                mid.block(a)
            }));
        }
        assert forall|r: u64, a: int|
            (#[trigger] t.page_at(r, a)) == if fault is None && r == root && same_block(a, va) {
                None
            } else {
                s.page_at(r, a)
            } by {
            assert(table_of(t.tables, r, 0) == table_of(s.tables, r, 0));
            lemma_table_of(s.tables, r, 0);
            assert(mid.block(a) == old.block(a));
            assert(error is None ==> new.block(a) == (if same_block(a, va) {
                Some(block_word(pa, flags))
            } else {
                mid.block(a)
            }));
        }
    }
}

/// Identity blocks: each 2 MiB of the range is mapped to itself, but for those that begin in the
/// gap; nothing else changes.
pub proof fn law_map_blocks(
    s: MachineView,
    root: u64,
    va: int,
    flags: u64,
    skip_start: int,
    skip_end: int,
    n: int,
)
    requires
        s.paging_ok(),
        flags & 3 == 0,
        0 <= n,
        0 <= va,
        va % 0x20_0000 == 0,
        va + n * 0x20_0000 <= 0x80_0000_0000,
        s.map_blocks(root, va, flags, skip_start, skip_end, n).1 is None,
    ensures
        ({
            let t = s.map_blocks(root, va, flags, skip_start, skip_end, n).0;
            &&& t.paging_ok()
            &&& forall|r: u64| t.table(r) is Some <==> #[trigger] s.table(r) is Some
            &&& forall|r: u64, a: int|
                0 <= a < 0x80_0000_0000 ==> (#[trigger] t.block_at(r, a)) == if r == root && va <= a
                    < va + n * 0x20_0000 && !(skip_start <= a - a % 0x20_0000 < skip_end) {
                    Some(block_word((a - a % 0x20_0000) as u64, flags))
                } else {
                    s.block_at(r, a)
                }
            &&& forall|r: u64, a: int|
                0 <= a < 0x80_0000_0000 ==> (#[trigger] t.page_at(r, a)) == if r == root && va <= a
                    < va + n * 0x20_0000 && !(skip_start <= a - a % 0x20_0000 < skip_end) {
                    None
                } else {
                    s.page_at(r, a)
                }
        }),
    decreases n,
{
    reveal(MachineView::map_blocks);
    if n > 0 {
        law_map_blocks(s, root, va, flags, skip_start, skip_end, n - 1);
        let b = s.map_blocks(root, va, flags, skip_start, skip_end, n - 1).0;
        let t = s.map_blocks(root, va, flags, skip_start, skip_end, n).0;
        let at = va + (n - 1) * 0x20_0000;
        assert(at % 0x20_0000 == 0);
        if !(skip_start <= at < skip_end) {
            law_map_block(b, root, at, at as u64, flags);
        }
        assert forall|r: u64| t.table(r) is Some <==> #[trigger] s.table(r) is Some by {
            assert(b.table(r) is Some <==> s.table(r) is Some);
        }
        assert forall|r: u64, a: int| 0 <= a < 0x80_0000_0000 implies (#[trigger] t.block_at(r, a))
            == if r == root && va <= a < va + n * 0x20_0000 && !(skip_start <= a - a % 0x20_0000
            < skip_end) {
            Some(block_word((a - a % 0x20_0000) as u64, flags))
        } else {
            s.block_at(r, a)
        } by {
            assert(b.block_at(r, a) == b.block_at(r, a));
            lemma_same_block(a, at);
        }
        assert forall|r: u64, a: int| 0 <= a < 0x80_0000_0000 implies (#[trigger] t.page_at(r, a))
            == if r == root && va <= a < va + n * 0x20_0000 && !(skip_start <= a - a % 0x20_0000
            < skip_end) {
            None
        } else {
            s.page_at(r, a)
        } by {
            assert(b.page_at(r, a) == b.page_at(r, a));
            lemma_same_block(a, at);
        }
    }
}

/// A new table maps nothing, and no other table changes.
pub proof fn law_new_table_is_empty(s: MachineView)
    requires
        s.paging_ok(),
        s.new_table().1 is Some,
        s.table(s.new_table().1->0) is None,
    ensures
        ({
            let (t, root) = s.new_table();
            &&& t.paging_ok()
            &&& t.table(root->0) is Some
            &&& forall|a: int| #[trigger] t.block_at(root->0, a) is None
            &&& forall|a: int| #[trigger] t.page_at(root->0, a) is None
            &&& forall|r: u64, a: int|
                r != root->0 ==> #[trigger] t.page_at(r, a) == s.page_at(r, a)
            &&& forall|r: u64, a: int|
                r != root->0 ==> #[trigger] t.block_at(r, a) == s.block_at(r, a)
        }),
{
    reveal(MachineView::new_table);
    lemma_page_alloc_ok(s.k.mem);
    assert(0u64 & 3 != 3) by (bit_vector);
    let (t, root) = s.new_table();
    let new = t.tables[s.tables.len() as int];
    assert forall|r: u64| table_of(t.tables, r, 0) == (if table_of(s.tables, r, 0) is Some {
        table_of(s.tables, r, 0)
    } else if r == root->0 {
        Some(s.tables.len() as int)
    } else {
        None::<int>
    }) by {
        lemma_table_of_push(s.tables, new, r, 0);
    }
    assert forall|a: int| #[trigger] t.block_at(root->0, a) is None by {
        lemma_indices(a);
    }
    assert forall|a: int| #[trigger] t.page_at(root->0, a) is None by {
        lemma_indices(a);
    }
    assert forall|r: u64, a: int| r != root->0 implies #[trigger] t.page_at(r, a) == s.page_at(
        r,
        a,
    ) by {
        lemma_table_of(s.tables, r, 0);
    }
    assert forall|r: u64, a: int| r != root->0 implies #[trigger] t.block_at(r, a) == s.block_at(
        r,
        a,
    ) by {
        lemma_table_of(s.tables, r, 0);
    }
    assert(new.wf());
    assert forall|i: int| 0 <= i < t.tables.len() implies (#[trigger] t.tables[i]).wf() by {
        if i < s.tables.len() {
            assert(s.tables[i].wf());
        }
    }
}

proof fn lemma_table_of_push(tables: Seq<TableView>, new: TableView, root: u64, from: int)
    requires
        0 <= from <= tables.len(),
    ensures
        table_of(tables.push(new), root, from) == (if table_of(tables, root, from) is Some {
            table_of(tables, root, from)
        } else if new.root == root {
            Some(tables.len() as int)
        } else {
            None::<int>
        }),
    decreases tables.len() - from,
{
    if from < tables.len() {
        lemma_table_of_push(tables, new, root, from + 1);
    } else {
        assert(table_of(tables.push(new), root, from + 1) is None);
    }
}

/// What the kernel's presets for blocks mean, read off the descriptor itself: EL0 has no access,
/// the block is the one that it was made for, and ordinary memory and devices are told apart.
pub proof fn law_kernel_blocks_mean(pa: u64)
    requires
        pa % 0x20_0000 == 0,
        pa < PHYSICAL_LIMIT,
    ensures
        block_word(pa, MMU_KERNEL) & 0x40 == 0,
        block_word(pa, MMU_DEV) & 0x40 == 0,
        block_word(pa, MMU_KERNEL) & 0xffff_ffff_f000 == pa,
        block_word(pa, MMU_DEV) & 0xffff_ffff_f000 == pa,
        memory_type(block_word(pa, MMU_KERNEL)) == 0,
        memory_type(block_word(pa, MMU_DEV)) == 1,
        block_word(pa, MMU_KERNEL) & 0x80 == 0,
        block_word(pa, MMU_DEV) & 0x80 == 0,
        block_word(pa, MMU_KERNEL) & 0x20_0000_0000_0000 == 0,
        block_word(pa, MMU_DEV) & 0x20_0000_0000_0000 != 0,
{
    let k = block_word(pa, MMU_KERNEL);
    let d = block_word(pa, MMU_DEV);
    assert(k & 0x40 == 0 && d & 0x40 == 0 && k & 0xffff_ffff_f000 == pa && d & 0xffff_ffff_f000
        == pa && k & 0x1c == 0 && d & 0x1c == 4 && k & 0x80 == 0 && d & 0x80 == 0 && k
        & 0x20_0000_0000_0000 == 0 && d & 0x20_0000_0000_0000 != 0) by (bit_vector)
        requires
            pa % 0x20_0000 == 0,
            pa < 0x1_0000_0000_0000u64,
            k == (pa & !0x1f_ffffu64) | 0x0040_0000_0000_0700u64 | 1,
            d == (pa & !0x1f_ffffu64) | 0x0060_0000_0000_0604u64 | 1,
    ;
}

} // verus!
