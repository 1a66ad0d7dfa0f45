//! The identity map that the boot shim builds before there is an allocator, out of the free
//! ranges of the boot info.
use crate::boot_info::BootInfo;
use crate::hw::HwOp;
use crate::memory::mmu;
use crate::util::ArrayUpdate;
use vstd::prelude::*;

verus! {

/// The early map: its first-level table and the words in it; zero where there is no second level.
#[derive(Clone, Copy)]
#[verifier::ext_equal]
pub struct EarlyMap {
    pub root: u64,
    pub l1: [u64; 512],
}

impl EarlyMap {
    /// Tables lie on pages below 2^48.
    pub open spec fn wf(self) -> bool {
        self.root <= 0x1_0000_0000_0000 && forall|i: int|
            0 <= i < 512 ==> #[trigger] self.l1@[i] <= 0x1_0000_0000_0003
    }

    /// A map with nothing in it.
    pub open spec fn empty(root: u64) -> EarlyMap {
        EarlyMap { root, l1: crate::util::filled(0) }
    }

    /// The second-level table for an address.
    pub open spec fn table(self, va: u64) -> u64 {
        self.l1@[mmu::l1_of(va as int)] & !0xfffu64
    }
}

/// The boot info only lists memory below 2^48.
pub open spec fn below_limit(bi: BootInfo) -> bool {
    forall|i: int|
        0 <= i < bi.range_count ==> (#[trigger] bi.ranges@[i]).base + bi.ranges@[i].pages * 4096
            <= 0x1_0000_0000_0000
}

/// The descriptor of a 2 MiB block.
pub open spec fn early_block(pa: u64, flags: u64) -> u64 {
    (pa & !0x1f_ffffu64) | flags | 1
}

/// A map with the second-level table for `va`; none when memory is used up.
pub open spec fn with_l2(bi: BootInfo, map: EarlyMap, va: u64) -> (
    BootInfo,
    EarlyMap,
    Seq<HwOp>,
    bool,
) {
    let index = mmu::l1_of(va as int);
    if map.l1@[index] != 0 {
        (bi, map, seq![], true)
    } else {
        match bi.first_with_page(0) {
            None => (bi, map, seq![], false),
            Some(i) => {
                let pa = bi.ranges@[i].base;
                (
                    bi.without_page(i),
                    EarlyMap { l1: map.l1.upd(index, pa | 3), ..map },
                    seq![
                        HwOp::Zero { pa, bytes: 4096 },
                        HwOp::Store { pa: (map.root + 8 * index) as u64, word: pa | 3 },
                        HwOp::SyncForExec { pa, pages: 1 },
                    ],
                    true,
                )
            },
        }
    }
}

/// Maps the block that holds `va`; false when memory is used up.
pub fn boot_map_2m(
    bi: &mut BootInfo,
    map: &mut EarlyMap,
    ops: &mut Vec<HwOp>,
    va: u64,
    pa: u64,
    flags: u64,
) -> (r: bool)
    requires
        old(bi).wf(),
        old(map).wf(),
        below_limit(*old(bi)),
    ensures
        ({
            let (b, m, more, ok) = with_l2(*old(bi), *old(map), va);
            &&& *final(bi) == b
            &&& *final(map) == m
            &&& r == ok
            &&& final(ops)@ == old(ops)@ + more + if ok {
                seq![
                    HwOp::Store {
                        pa: (m.table(va) + 8 * mmu::l2_of(va as int)) as u64,
                        word: early_block(pa, flags),
                    },
                    HwOp::SyncForExec { pa: m.table(va), pages: 1 },
                ]
            } else {
                seq![]
            }
        }),
        final(bi).wf(),
        final(map).wf(),
        below_limit(*final(bi)),
{
    let index: usize = ((va / 0x4000_0000) % 512) as usize;
    let place: u64 = (va / 0x20_0000) % 512;
    let ghost more: Seq<HwOp> = with_l2(*bi, *map, va).2;
    if map.l1[index] == 0 {
        assert forall|i: int| 0 <= i < bi.range_count implies (#[trigger] bi.ranges@[i]).base
            + bi.ranges@[i].pages * 4096 <= u64::MAX by {}
        let ghost before = *bi;
        match bi.boot_alloc_page() {
            None => {
                assert(ops@ =~= old(ops)@ + more + Seq::<HwOp>::empty());
                return false;
            },
            Some(page) => {
                proof {
                    let i = before.first_with_page(0)->0;
                    lemma_first_with_page(before, 0);
                    assert(before.ranges@[i].base + before.ranges@[i].pages * 4096
                        <= 0x1_0000_0000_0000);
                    assert forall|j: int| 0 <= j < bi.range_count implies (
                    #[trigger] bi.ranges@[j]).base + bi.ranges@[j].pages * 4096
                        <= 0x1_0000_0000_0000 by {
                        assert(before.ranges@[j].base + before.ranges@[j].pages * 4096
                            <= 0x1_0000_0000_0000);
                    }
                }
                assert(page <= 0x1_0000_0000_0000 ==> page | 3 <= 0x1_0000_0000_0003)
                    by (bit_vector);
                map.l1[index] = page | 3;
                ops.push(HwOp::Zero { pa: page, bytes: 4096 });
                ops.push(HwOp::Store { pa: map.root + 8 * index as u64, word: page | 3 });
                ops.push(HwOp::SyncForExec { pa: page, pages: 1 });
            },
        }
    }
    assert(ops@ =~= old(ops)@ + more);
    let word: u64 = map.l1[index];
    assert(word & !0xfffu64 <= word) by (bit_vector);
    let l2: u64 = word & !0xfffu64;
    ops.push(HwOp::Store { pa: l2 + 8 * place, word: (pa & !0x1f_ffffu64) | flags | 1 });
    ops.push(HwOp::SyncForExec { pa: l2, pages: 1 });
    assert(ops@ =~= old(ops)@ + more + seq![
        HwOp::Store { pa: (l2 + 8 * place) as u64, word: early_block(pa, flags) },
        HwOp::SyncForExec { pa: l2, pages: 1 },
    ]);
    true
}

proof fn lemma_first_with_page(bi: BootInfo, from: int)
    requires
        bi.first_with_page(from) is Some,
    ensures
        from <= bi.first_with_page(from)->0 < bi.range_count,
        bi.ranges@[bi.first_with_page(from)->0].pages != 0,
    decreases bi.range_count - from,
{
    if bi.ranges@[from].pages == 0 {
        lemma_first_with_page(bi, from + 1);
    }
}

/// Maps every block of `[start, end)` to itself; false when memory is used up.
pub fn boot_map_range_2m(
    bi: &mut BootInfo,
    map: &mut EarlyMap,
    ops: &mut Vec<HwOp>,
    start: u64,
    end: u64,
    flags: u64,
) -> (r: bool)
    requires
        old(bi).wf(),
        old(map).wf(),
        below_limit(*old(bi)),
        end <= u64::MAX - 0x1f_ffff,
    ensures
        ({
            let first = start - start % 0x20_0000;
            let (b, m, o, ok) = mapped_blocks(
                *old(bi),
                *old(map),
                old(ops)@,
                first,
                flags,
                mmu::blocks_in(start as int, end as int),
            );
            *final(bi) == b && *final(map) == m && final(ops)@ == o && r == ok
        }),
        final(bi).wf(),
        final(map).wf(),
        below_limit(*final(bi)),
{
    let first: u64 = start - start % 0x20_0000;
    proof {
        crate::util::lemma_round_up(end as int, 0x20_0000);
    }
    let last: u64 = (end + 0x1f_ffff) / 0x20_0000 * 0x20_0000;
    let blocks: u64 = if last > first {
        (last - first) / 0x20_0000
    } else {
        0
    };
    assert(blocks == mmu::blocks_in(start as int, end as int));
    let mut k: u64 = 0;
    while k < blocks
        invariant
            k <= blocks,
            bi.wf(),
            map.wf(),
            below_limit(*bi),
            blocks == mmu::blocks_in(start as int, end as int),
            first == start - start % 0x20_0000,
            first + blocks * 0x20_0000 <= u64::MAX,
            (*bi, *map, ops@, true) == mapped_blocks(
                *old(bi),
                *old(map),
                old(ops)@,
                first as int,
                flags,
                k as int,
            ),
        decreases blocks - k,
    {
        let va: u64 = first + k * 0x20_0000;
        if !boot_map_2m(bi, map, ops, va, va, flags) {
            proof {
                lemma_blocks_stop(
                    *old(bi),
                    *old(map),
                    old(ops)@,
                    first as int,
                    flags,
                    k + 1,
                    blocks as int,
                );
            }
            return false;
        }
        k = k + 1;
    }
    true
}

/// The state after `n` blocks from `first` on were mapped to themselves; it stays as it is when
/// memory has run out.
pub open spec fn mapped_blocks(
    bi: BootInfo,
    map: EarlyMap,
    ops: Seq<HwOp>,
    first: int,
    flags: u64,
    n: int,
) -> (BootInfo, EarlyMap, Seq<HwOp>, bool)
    decreases n,
{
    if n <= 0 {
        (bi, map, ops, true)
    } else {
        let (b, m, o, ok) = mapped_blocks(bi, map, ops, first, flags, n - 1);
        if !ok {
            (b, m, o, false)
        } else {
            let va = (first + (n - 1) * 0x20_0000) as u64;
            let (b2, m2, more, ok2) = with_l2(b, m, va);
            let l2 = m2.table(va);
            (
                b2,
                m2,
                o + more + if ok2 {
                    seq![
                        HwOp::Store {
                            pa: (l2 + 8 * mmu::l2_of(va as int)) as u64,
                            word: early_block(va, flags),
                        },
                        HwOp::SyncForExec { pa: l2, pages: 1 },
                    ]
                } else {
                    seq![]
                },
                ok2,
            )
        }
    }
}

/// The debug UART of the board, mapped before the device tree is read.
pub const EARLY_DEBUG_UART_BASE: u64 = 0x10_7d00_1000;

/// The first state of a board's early map: its first-level table is the next free page.
pub open spec fn rooted(bi: BootInfo, i: int, ops: Seq<HwOp>) -> (BootInfo, EarlyMap, Seq<HwOp>) {
    let root = bi.ranges@[i].base;
    (bi.without_page(i), EarlyMap::empty(root), ops.push(HwOp::Zero { pa: root, bytes: 4096 }))
}

/// The early map of the board: low memory, where tables and the trampoline are; the band where
/// firmware puts the image, its stack and the boot information; and the block of the debug UART.
/// The operations follow `ops`. The map is only good where the last part is true.
pub open spec fn board_map(bi: BootInfo, i: int, ops: Seq<HwOp>) -> (
    BootInfo,
    EarlyMap,
    Seq<HwOp>,
    bool,
) {
    let (b, m, o) = rooted(bi, i, ops);
    let (b, m, o, ok) = mapped_blocks(b, m, o, 0, mmu::MMU_KERNEL, 2);
    if !ok {
        (b, m, o, false)
    } else {
        let (b, m, o, ok) = mapped_blocks(b, m, o, 0x3000_0000, mmu::MMU_KERNEL, 144);
        if !ok {
            (b, m, o, false)
        } else {
            mapped_blocks(b, m, o, 0x10_7d00_0000, mmu::MMU_DEV, 1)
        }
    }
}

/// Builds the early map of the board; none when memory is used up.
pub fn install_pi5_el1_boot_mmu(bi: &mut BootInfo, ops: &mut Vec<HwOp>) -> (r: Option<EarlyMap>)
    requires
        old(bi).wf(),
        below_limit(*old(bi)),
    ensures
        match old(bi).first_with_page(0) {
            None => r is None && *final(bi) == *old(bi) && final(ops)@ == old(ops)@,
            Some(i) => {
                let (b, m, o, ok) = board_map(*old(bi), i, old(ops)@);
                &&& *final(bi) == b
                &&& r == (if ok {
                    Some(m)
                } else {
                    None
                })
                &&& final(ops)@ == o + if ok {
                    seq![HwOp::SyncForExec { pa: m.root, pages: 1 }]
                } else {
                    seq![]
                }
            },
        },
        final(bi).wf(),
        below_limit(*final(bi)),
{
    let ghost before = *bi;
    proof {
        lemma_bounds(*bi);
    }
    let root: u64 = match bi.boot_alloc_page() {
        None => {
            return None;
        },
        Some(root) => root,
    };
    proof {
        let i = before.first_with_page(0)->0;
        lemma_first_with_page(before, 0);
        assert(before.ranges@[i].base + before.ranges@[i].pages * 4096 <= 0x1_0000_0000_0000);
        assert forall|j: int| 0 <= j < bi.range_count implies (#[trigger] bi.ranges@[j]).base
            + bi.ranges@[j].pages * 4096 <= 0x1_0000_0000_0000 by {
            assert(before.ranges@[j].base + before.ranges@[j].pages * 4096
                <= 0x1_0000_0000_0000);
        }
    }
    ops.push(HwOp::Zero { pa: root, bytes: 4096 });
    let mut map: EarlyMap = EarlyMap { root, l1: [0; 512] };
    assert(map.l1@ =~= crate::util::filled::<u64, 512>(0)@);
    assert(map =~= EarlyMap::empty(root));
    let ghost i = before.first_with_page(0)->0;
    assert(ops@ =~= rooted(before, i, old(ops)@).2);
    assert(mmu::blocks_in(0, 0x40_0000) == 2);
    assert(mmu::blocks_in(0x3000_0000, 0x4200_0000) == 144);
    assert(mmu::blocks_in(0x10_7d00_0000, 0x10_7d20_0000) == 1);
    let ok: bool = boot_map_range_2m(bi, &mut map, ops, 0, 0x40_0000, mmu::MMU_KERNEL)
        && boot_map_range_2m(bi, &mut map, ops, 0x3000_0000, 0x4200_0000, mmu::MMU_KERNEL)
        && boot_map_range_2m(bi, &mut map, ops, 0x10_7d00_0000, 0x10_7d20_0000, mmu::MMU_DEV);
    if !ok {
        assert(ops@ =~= board_map(before, i, old(ops)@).2 + Seq::<HwOp>::empty());
        return None;
    }
    ops.push(HwOp::SyncForExec { pa: map.root, pages: 1 });
    Some(map)
}

proof fn lemma_bounds(bi: BootInfo)
    requires
        below_limit(bi),
    ensures
        bi.in_bounds(),
{
    assert forall|i: int| 0 <= i < bi.range_count implies (#[trigger] bi.ranges@[i]).base
        + bi.ranges@[i].pages * 4096 <= u64::MAX by {}
}

/// The cache lines that hold `size` bytes from `start` on: the first and the one behind the last.
pub fn exec_lines(start: u64, size: u64) -> (r: (u64, u64))
    requires
        start + size + 63 <= u64::MAX,
    ensures
        r.0 == start - start % 64,
        r.1 == crate::util::round_up(start + size, 64),
{
    proof {
        crate::util::lemma_round_up(start + size, 64);
    }
    (start - start % 64, (start + size + 63) / 64 * 64)
}

proof fn lemma_blocks_stop(
    bi: BootInfo,
    map: EarlyMap,
    ops: Seq<HwOp>,
    first: int,
    flags: u64,
    k: int,
    n: int,
)
    requires
        0 <= k <= n,
        !mapped_blocks(bi, map, ops, first, flags, k).3,
    ensures
        mapped_blocks(bi, map, ops, first, flags, n) == mapped_blocks(
            bi,
            map,
            ops,
            first,
            flags,
            k,
        ),
    decreases n,
{
    if k < n {
        lemma_blocks_stop(bi, map, ops, first, flags, k, n - 1);
    }
}

} // verus!
