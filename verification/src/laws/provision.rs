//! What the kernel is given to hand out, and to whom: memory, windows of devices, and interrupts.
use crate::abi;
use crate::boot::dtb::RegRange;
use crate::boot::kmain::{self, page_grant};
use crate::boot_info::{BootInfo, BootRange};
use crate::memory::physical::{self, PhysicalMemory};
use crate::object::task::IrqGrant;
use crate::resource::protect::{MmioRegion, ProtectTable};
use crate::resource::resources::PlatformResources;
use vstd::prelude::*;

verus! {

/// `a` lies in a range that was found.
pub open spec fn in_range(range: BootRange, a: int) -> bool {
    range.base <= a < range.base + range.pages * 4096
}

/// A range reaches into the user window.
pub open spec fn reaches_window(range: BootRange) -> bool {
    range.base < abi::USER_WINDOW_END && range.base + range.pages * 4096 > abi::USER_BASE
}

/// Memory may be handed out if it was found, and if its range stays clear of the user window or it
/// lies behind it.
pub open spec fn may_be_used(bi: BootInfo, k: int, a: int) -> bool {
    exists|i: int|
        0 <= i < k && in_range(#[trigger] bi.ranges@[i], a) && (!reaches_window(bi.ranges@[i]) || a
            >= abi::USER_WINDOW_END)
}

/// The memory that can be handed out is the memory that was found, without what stands before the
/// end of the user window in a range that reaches into it.
pub proof fn law_memory_is_what_was_found(mem: PhysicalMemory, bi: BootInfo, k: int, a: int)
    requires
        kmain::sound_memory(bi),
        0 <= k <= bi.range_count,
        k <= 64,
    ensures
        kmain::filled_memory(mem, bi, k).count <= k,
        kmain::filled_memory(mem, bi, k).is_free(a) == may_be_used(bi, k, a),
    decreases k,
{
    let after = kmain::filled_memory(mem, bi, k);
    if k > 0 {
        law_memory_is_what_was_found(mem, bi, k - 1, a);
        let before = kmain::filled_memory(mem, bi, k - 1);
        let range = bi.ranges@[k - 1];
        assert(kmain::sound_range(range));
        let cut = kmain::usable(range);
        let here = in_range(range, a) && (!reaches_window(range) || a >= abi::USER_WINDOW_END);
        assert(here == in_range(cut, a));
        let n = before.count as int;
        assert(forall|i: int| 0 <= i < n ==> after.ranges@[i] == before.ranges@[i]);
        if here {
            assert(after.ranges@[n].covers(a));
            assert(may_be_used(bi, k, a)) by {
                assert(in_range(bi.ranges@[k - 1], a));
            }
        }
        if before.is_free(a) {
            let i = choose|i: int|
                0 <= i < before.count && (#[trigger] before.ranges@[i]).covers(a);
            assert(after.ranges@[i].covers(a));
        }
        if may_be_used(bi, k - 1, a) {
            let i = choose|i: int|
                0 <= i < k - 1 && in_range(#[trigger] bi.ranges@[i], a) && (!reaches_window(
                    bi.ranges@[i],
                ) || a >= abi::USER_WINDOW_END);
            assert(in_range(bi.ranges@[i], a));
        }
        if after.is_free(a) && !here {
            let i = choose|i: int|
                0 <= i < after.count && (#[trigger] after.ranges@[i]).covers(a);
            assert(i < n);
            assert(before.ranges@[i].covers(a));
        }
        if may_be_used(bi, k, a) && !here {
            let i = choose|i: int|
                0 <= i < k && in_range(#[trigger] bi.ranges@[i], a) && (!reaches_window(
                    bi.ranges@[i],
                ) || a >= abi::USER_WINDOW_END);
            assert(i < k - 1);
            assert(in_range(bi.ranges@[i], a));
        }
    }
}

/// While the table of free ranges has room, an aligned run is refused only if no range holds one.
pub proof fn law_aligned_run_is_found(mem: PhysicalMemory, n: u64, align: u64, i: int, start: int)
    requires
        mem.wf(),
        mem.count < 64,
        n > 0,
        crate::util::power_of_two(align as int),
        0 <= i < mem.count,
        start % (align * 4096) == 0,
        mem.ranges@[i].base <= start,
        start + n * 4096 <= mem.ranges@[i].base + mem.ranges@[i].pages * 4096,
    ensures
        mem.aligned_alloc(n, align).1 is Some,
{
    reveal(PhysicalMemory::aligned_alloc);
    let k = choose|k: nat| k < 64 && align as int == #[trigger] vstd::arithmetic::power2::pow2(k);
    vstd::arithmetic::power2::lemma_pow2_pos(k);
    physical::lemma_aligned_start(mem, i, align);
    let unit = align * 4096;
    let first = mem.aligned_start(i, align);
    assert(first <= start) by {
        let x = first / unit;
        let y = start / unit;
        vstd::arithmetic::div_mod::lemma_fundamental_div_mod(first, unit);
        vstd::arithmetic::div_mod::lemma_fundamental_div_mod(start, unit);
        if first > start {
            assert(x >= y + 1) by (nonlinear_arith)
                requires
                    first == unit * x,
                    start == unit * y,
                    first > start,
                    unit > 0,
            ;
            assert(first >= start + unit) by (nonlinear_arith)
                requires
                    first == unit * x,
                    start == unit * y,
                    x >= y + 1,
                    unit > 0,
            ;
        }
    }
    assert(mem.prefix(i, align) + n <= mem.ranges@[i].pages);
    lemma_fit(mem, n, align, i, 0);
}

proof fn lemma_fit(mem: PhysicalMemory, n: u64, align: u64, i: int, from: int)
    requires
        0 <= from <= i < mem.count,
        mem.prefix(i, align) + n <= mem.ranges@[i].pages,
    ensures
        mem.first_aligned_fit(n, align, from) is Some,
    decreases i - from,
{
    if from < i && mem.prefix(from, align) + n > mem.ranges@[from].pages {
        lemma_fit(mem, n, align, i, from + 1);
    }
}

/// The window of a device is granted from the page that it begins in, in as many whole pages as
/// its size needs.
pub proof fn law_grant_is_whole_pages(reg: RegRange)
    requires
        kmain::roundable(reg),
    ensures
        page_grant(reg).base % 4096 == 0,
        page_grant(reg).base <= reg.base < page_grant(reg).base + 4096,
        page_grant(reg).size % 4096 == 0,
        reg.size <= page_grant(reg).size < reg.size + 4096,
{
    crate::util::lemma_round_up(reg.size as int, 4096);
}

/// The task may use the console, and each other device that was found: the controller that is there
/// by itself, the window of virtio devices, and of the PCI host its first bus and its memory
/// windows. It may use no other.
pub proof fn law_each_device_is_granted(p: PlatformResources, base: u64, size: u64)
    ensures
        ({
            let grants = kmain::mmio_grants(p);
            let granted = exists|i: int|
                0 <= i < grants.len() && (#[trigger] grants[i]).base == base && grants[i].size
                    == size;
            granted == ({
                ||| page_grant(p.uart).base == base && page_grant(p.uart).size == size
                ||| p.xhci is Some && page_grant((p.xhci->0).0).base == base && page_grant(
                    (p.xhci->0).0,
                ).size == size
                ||| p.virtio_mmio is Some && (p.virtio_mmio->0).base == base && (
                p.virtio_mmio->0).size == size
                ||| p.pci.present != 0 && p.pci.ecam_pa == base && size == if p.pci.ecam_size
                    < 0x10_0000 {
                    p.pci.ecam_size
                } else {
                    0x10_0000
                }
                ||| p.pci.present != 0 && exists|k: int|
                    0 <= k < p.pci.range_count && (#[trigger] p.pci.ranges@[k]).parent_base == base
                        && p.pci.ranges@[k].size == size && (p.pci.ranges@[k].flags / 0x100_0000)
                        % 4 >= 2
            })
        }),
{
    let xhci = match p.xhci {
        Some((reg, _)) => seq![page_grant(reg)],
        None => seq![],
    };
    let virtio = match p.virtio_mmio {
        Some(window) => seq![
            crate::object::task::MmioGrant { base: window.base, size: window.size },
        ],
        None => seq![],
    };
    let windows = kmain::pci_windows(p, p.pci.range_count as int);
    let grants = kmain::mmio_grants(p);
    let ecam = if p.pci.ecam_size < 0x10_0000 {
        p.pci.ecam_size
    } else {
        0x10_0000
    };
    let a = xhci.len() as int;
    let b = virtio.len() as int;
    lemma_windows(p, p.pci.range_count as int, base, size);
    assert(grants[0] == page_grant(p.uart));
    if p.xhci is Some {
        assert(grants[1] == page_grant((p.xhci->0).0));
    }
    if p.virtio_mmio is Some {
        assert(grants[1 + a].base == (p.virtio_mmio->0).base);
    }
    if p.pci.present != 0 {
        assert(grants[1 + a + b].base == p.pci.ecam_pa && grants[1 + a + b].size == ecam);
        assert forall|j: int| 0 <= j < windows.len() implies #[trigger] grants[2 + a + b + j].base
            == windows[j].base && grants[2 + a + b + j].size == windows[j].size by {
            assert(windows.map_values(kmain::as_grant())[j] == kmain::as_grant()(windows[j]));
        }
        let some = exists|j: int|
            0 <= j < windows.len() && (#[trigger] windows[j]).base == base && windows[j].size
                == size;
        if some {
            let j = choose|j: int|
                0 <= j < windows.len() && (#[trigger] windows[j]).base == base && windows[j].size
                    == size;
            assert(grants[2 + a + b + j].base == base);
        }
        assert forall|i: int|
            2 + a + b <= i < grants.len() && (#[trigger] grants[i]).base == base && grants[i].size
                == size implies some by {
            let j = i - 2 - a - b;
            assert(grants[2 + a + b + j].base == windows[j].base);
            assert(windows[j].base == base);
        }
    }
    let granted = exists|i: int|
        0 <= i < grants.len() && (#[trigger] grants[i]).base == base && grants[i].size == size;
    if granted {
        let i = choose|i: int|
            0 <= i < grants.len() && (#[trigger] grants[i]).base == base && grants[i].size == size;
        if i == 0 {
        } else if i <= a {
        } else if i <= a + b {
        } else {
            assert(p.pci.present != 0);
        }
    }
}

proof fn lemma_windows(p: PlatformResources, n: int, base: u64, size: u64)
    ensures
        ({
            let windows = kmain::pci_windows(p, n);
            (exists|j: int|
                0 <= j < windows.len() && (#[trigger] windows[j]).base == base && windows[j].size
                    == size) == (exists|k: int|
                0 <= k < n && (#[trigger] p.pci.ranges@[k]).parent_base == base
                    && p.pci.ranges@[k].size == size && (p.pci.ranges@[k].flags / 0x100_0000) % 4
                    >= 2)
        }),
    decreases n,
{
    let windows = kmain::pci_windows(p, n);
    if n > 0 {
        lemma_windows(p, n - 1, base, size);
        let before = kmain::pci_windows(p, n - 1);
        let range = p.pci.ranges@[n - 1];
        let was = exists|j: int|
            0 <= j < before.len() && (#[trigger] before[j]).base == base && before[j].size == size;
        let had = exists|k: int|
            0 <= k < n - 1 && (#[trigger] p.pci.ranges@[k]).parent_base == base
                && p.pci.ranges@[k].size == size && (p.pci.ranges@[k].flags / 0x100_0000) % 4 >= 2;
        if was {
            let j = choose|j: int|
                0 <= j < before.len() && (#[trigger] before[j]).base == base && before[j].size
                    == size;
            assert(windows[j].base == base);
            let k = choose|k: int|
                0 <= k < n - 1 && (#[trigger] p.pci.ranges@[k]).parent_base == base
                    && p.pci.ranges@[k].size == size && (p.pci.ranges@[k].flags / 0x100_0000) % 4
                    >= 2;
            assert(p.pci.ranges@[k].parent_base == base);
        }
        if kmain::is_memory_range(range) {
            assert(windows[before.len() as int].base == range.parent_base);
        }
        if exists|j: int|
            0 <= j < windows.len() && (#[trigger] windows[j]).base == base && windows[j].size
                == size {
            let j = choose|j: int|
                0 <= j < windows.len() && (#[trigger] windows[j]).base == base && windows[j].size
                    == size;
            if j < before.len() {
                assert(before[j].base == base);
            } else {
                assert(p.pci.ranges@[n - 1].parent_base == base);
            }
        }
        if exists|k: int|
            0 <= k < n && (#[trigger] p.pci.ranges@[k]).parent_base == base
                && p.pci.ranges@[k].size == size && (p.pci.ranges@[k].flags / 0x100_0000) % 4
                >= 2 {
            let k = choose|k: int|
                0 <= k < n && (#[trigger] p.pci.ranges@[k]).parent_base == base
                    && p.pci.ranges@[k].size == size && (p.pci.ranges@[k].flags / 0x100_0000) % 4
                    >= 2;
            if k < n - 1 {
                assert(p.pci.ranges@[k].parent_base == base);
            }
        }
    }
}

/// The task may use the interrupts of the console, of the controller that is there by itself and of
/// the PCI host's routes, as many as there is room for, and no others.
pub proof fn law_each_interrupt_is_granted(p: PlatformResources, intid: u32)
    requires
        0 <= p.pci.intx_route_count,
    ensures
        ({
            let grants = kmain::irq_grants(p);
            let named = intid == p.uart_irq.intid || (p.xhci is Some && intid
                == (p.xhci->0).1.intid) || exists|k: int|
                0 <= k < p.pci.intx_route_count && (#[trigger] p.pci.intx_routes@[k]).intid
                    == intid;
            &&& kmain::grants_irq(grants, intid) ==> named
            &&& named && grants.len() < 32 ==> kmain::grants_irq(grants, intid)
            &&& kmain::grants_irq(grants, p.uart_irq.intid)
            &&& grants.len() <= 32
        }),
{
    let uart = seq![IrqGrant { intid: p.uart_irq.intid, flags: p.uart_irq.flags }];
    assert(uart[0].intid == p.uart_irq.intid);
    let direct = match p.xhci {
        Some((_, irq)) => kmain::with_irq(uart, irq.intid, irq.flags),
        None => uart,
    };
    if let Some((_, irq)) = p.xhci {
        lemma_with_irq(uart, irq.intid, irq.flags, intid);
        lemma_with_irq(uart, irq.intid, irq.flags, p.uart_irq.intid);
    }
    let n = p.pci.intx_route_count as int;
    lemma_routes(direct, p, n, intid);
    lemma_routes(direct, p, n, p.uart_irq.intid);
}

proof fn lemma_with_irq(grants: Seq<IrqGrant>, intid: u32, flags: u32, wanted: u32)
    requires
        grants.len() <= 32,
    ensures
        ({
            let more = kmain::with_irq(grants, intid, flags);
            &&& kmain::grants_irq(grants, wanted) ==> kmain::grants_irq(more, wanted)
            &&& kmain::grants_irq(more, wanted) ==> kmain::grants_irq(grants, wanted) || wanted
                == intid
            &&& more.len() < 32 && wanted == intid ==> kmain::grants_irq(more, wanted)
            &&& grants.len() <= more.len() <= 32
        }),
{
    let more = kmain::with_irq(grants, intid, flags);
    if kmain::grants_irq(grants, wanted) {
        let i = choose|i: int| 0 <= i < grants.len() && (#[trigger] grants[i]).intid == wanted;
        assert(more[i].intid == wanted);
    }
    if more != grants {
        assert(more[grants.len() as int].intid == intid);
        if kmain::grants_irq(more, wanted) {
            let i = choose|i: int| 0 <= i < more.len() && (#[trigger] more[i]).intid == wanted;
            if i < grants.len() {
                assert(grants[i].intid == wanted);
            }
        }
    }
}

proof fn lemma_routes(grants: Seq<IrqGrant>, p: PlatformResources, n: int, wanted: u32)
    requires
        grants.len() <= 32,
    ensures
        ({
            let more = kmain::with_routes(grants, p, n);
            let routed = exists|k: int|
                0 <= k < n && (#[trigger] p.pci.intx_routes@[k]).intid == wanted;
            &&& kmain::grants_irq(grants, wanted) ==> kmain::grants_irq(more, wanted)
            &&& kmain::grants_irq(more, wanted) ==> kmain::grants_irq(grants, wanted) || routed
            &&& more.len() < 32 && routed ==> kmain::grants_irq(more, wanted)
            &&& grants.len() <= more.len() <= 32
        }),
    decreases n,
{
    if n > 0 {
        lemma_routes(grants, p, n - 1, wanted);
        let before = kmain::with_routes(grants, p, n - 1);
        let route = p.pci.intx_routes@[n - 1];
        lemma_with_irq(before, route.intid, route.flags, wanted);
        if exists|k: int| 0 <= k < n && (#[trigger] p.pci.intx_routes@[k]).intid == wanted {
            let k = choose|k: int|
                0 <= k < n && (#[trigger] p.pci.intx_routes@[k]).intid == wanted;
            if k < n - 1 {
                assert(p.pci.intx_routes@[k].intid == wanted);
            }
        }
    }
}

/// A device that was registered can be given out, from the page that it begins in to the page that
/// it ends in, unless a denied range meets it; and a range that was denied cannot.
pub proof fn law_registered_is_allowed(
    table: ProtectTable,
    base: u64,
    size: u64,
    from: u64,
    bytes: u64,
)
    requires
        table.wf(),
        table.count < 128,
        size != 0,
        base + size + 4095 <= u64::MAX,
        bytes != 0,
        base - base % 4096 <= from,
        from + bytes <= crate::util::round_up(base + size, 4096),
        forall|i: int|
            0 <= i < table.denied_count ==> from + bytes <= (#[trigger] table.denied@[i]).base
                || table.denied@[i].base + table.denied@[i].size <= from,
    ensures
        table.registered(base, size).allows(from, bytes),
        table.denied_count < 8 ==> !table.registered(base, size).denying(base, size).allows(
            base,
            size,
        ),
{
    crate::util::lemma_round_up(base + size, 4096);
    let more = table.registered(base, size);
    let n = table.count as int;
    assert(more.regions@[n].holds(from as int, from + bytes));
    assert forall|i: int| 0 <= i < more.denied_count implies !(#[trigger] more.denied@[i]).meets(
        from as int,
        from + bytes,
    ) by {
        assert(more.denied@[i] == table.denied@[i]);
    }
    if table.denied_count < 8 {
        let last = more.denying(base, size);
        let d = table.denied_count as int;
        assert(last.denied@[d] == (MmioRegion { base, size }));
        assert(last.denied@[d].meets(base as int, base + size));
    }
}


/// The task is told where its devices are, which interrupts they raise, and how many processors
/// there are, as they were found. A device that is not there is told as nothing.
pub proof fn law_task_is_told_what_was_found(p: PlatformResources)
    requires
        p.cpus.count <= 4,
    ensures
        ({
            let info = kmain::told(p);
            &&& info.uart.base == p.uart.base
            &&& info.uart.size == p.uart.size
            &&& info.uart.intid == p.uart_irq.intid
            &&& p.xhci is Some ==> {
                &&& info.xhci.base == (p.xhci->0).0.base
                &&& info.xhci.size == (p.xhci->0).0.size
                &&& info.xhci.intid == (p.xhci->0).1.intid
                &&& info.xhci_transport == abi::XHCI_TRANSPORT_DIRECT
            }
            &&& p.xhci is None ==> {
                &&& info.xhci.base == 0 && info.xhci.size == 0 && info.xhci.intid == 0
                &&& info.xhci_transport == if p.pci.present != 0 {
                    abi::XHCI_TRANSPORT_PCI
                } else {
                    abi::XHCI_TRANSPORT_NONE
                }
            }
            &&& p.virtio_mmio is Some ==> info.virtio_mmio.base == (p.virtio_mmio->0).base
                && info.virtio_mmio.size == (p.virtio_mmio->0).size
            &&& p.virtio_mmio is None ==> info.virtio_mmio.base == 0 && info.virtio_mmio.size == 0
            &&& info.cpu_count == p.cpus.count
            &&& info.pci == p.pci
        }),
{
}

} // verus!
