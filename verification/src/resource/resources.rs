//! One snapshot of the platform, taken from the device tree. Everything that is later granted,
//! protected or told to EL0 comes from it.
use crate::abi::{PciHostInfo, MAX_CPUS};
use crate::boot::dtb::{self, read_be, IrqSpec, RegRange};
use crate::resource::{pci, tree};
use crate::util::ArrayUpdate;
use vstd::prelude::*;

verus! {

/// The processors and their hardware identifiers.
#[derive(Clone, Copy)]
#[verifier::ext_equal]
pub struct CpuTopology {
    pub count: usize,
    pub mpidrs: [u64; 4],
}

impl CpuTopology {
    pub open spec fn none() -> CpuTopology {
        CpuTopology { count: 0, mpidrs: crate::util::filled(0) }
    }

    pub open spec fn with(self, mpidr: u64) -> CpuTopology {
        CpuTopology {
            count: (self.count + 1) as usize,
            mpidrs: self.mpidrs.upd(self.count as int, mpidr),
        }
    }
}

#[verifier::ext_equal]
pub struct PlatformResources {
    pub uart: RegRange,
    pub uart_irq: IrqSpec,
    pub gicd_pa: u64,
    pub gicc_pa: u64,
    pub pci: PciHostInfo,
    pub xhci: Option<(RegRange, IrqSpec)>,
    /// The window of all virtio-mmio transports.
    pub virtio_mmio: Option<RegRange>,
    pub timer_irq: IrqSpec,
    pub cpus: CpuTopology,
}

/// Smallest start and largest end of the windows seen so far, and their number.
#[derive(Clone, Copy)]
#[verifier::ext_equal]
pub struct Span {
    pub first: u64,
    pub last: u64,
    pub count: usize,
}

impl Span {
    pub open spec fn nothing() -> Span {
        Span { first: u64::MAX, last: 0, count: 0 }
    }

    pub open spec fn with(self, base: u64, end: u64) -> Span {
        Span {
            first: if base < self.first {
                base
            } else {
                self.first
            },
            last: if end > self.last {
                end
            } else {
                self.last
            },
            count: (self.count + 1) as usize,
        }
    }
}

/// One of the strings is `item`.
pub open spec fn among(strings: Seq<Seq<u8>>, item: Seq<u8>) -> bool {
    exists|i: int| 0 <= i < strings.len() && #[trigger] strings[i] == item
}

/// The span of the virtio-mmio nodes among the first `k`. None if one of them has no register
/// window, or one without an end.
pub open spec fn virtio_span(
    nodes: Seq<(Seq<Seq<u8>>, Option<(u64, Option<u64>)>)>,
    k: int,
) -> Option<Span>
    decreases k,
{
    if k <= 0 {
        Some(Span::nothing())
    } else {
        match virtio_span(nodes, k - 1) {
            None => None,
            Some(span) => if !among(nodes[k - 1].0, dtb::text("virtio,mmio")) {
                Some(span)
            } else {
                match nodes[k - 1].1 {
                    Some((base, Some(size))) if base + size <= u64::MAX => Some(
                        span.with(base, (base + size) as u64),
                    ),
                    _ => None,
                }
            },
        }
    }
}

/// The window of the virtio-mmio nodes, rounded out to whole pages.
pub open spec fn virtio_window(
    nodes: Seq<(Seq<Seq<u8>>, Option<(u64, Option<u64>)>)>,
) -> Option<RegRange> {
    match virtio_span(nodes, nodes.len() as int) {
        None => None,
        Some(span) => if span.count == 0 || span.first >= span.last || span.last + 4095
            > u64::MAX {
            None
        } else {
            let base = span.first - span.first % 4096;
            let end = crate::util::round_up(span.last as int, 4096);
            Some(RegRange { base: base as u64, size: (end - base) as u64 })
        },
    }
}

fn is_virtio(strings: &Vec<Vec<u8>>) -> (r: bool)
    ensures
        r == among(strings@.map_values(|s: Vec<u8>| s@), dtb::text("virtio,mmio")),
{
    let ghost all = strings@.map_values(|s: Vec<u8>| s@);
    let mut i: usize = 0;
    while i < strings.len()
        invariant
            i <= strings@.len(),
            all == strings@.map_values(|s: Vec<u8>| s@),
            forall|j: int| 0 <= j < i ==> #[trigger] all[j] != dtb::text("virtio,mmio"),
        decreases strings@.len() - i,
    {
        assert(all[i as int] == strings@[i as int]@);
        if dtb::is_text(strings[i].as_slice(), "virtio,mmio") {
            return true;
        }
        i = i + 1;
    }
    false
}

proof fn lemma_span_lost(
    nodes: Seq<(Seq<Seq<u8>>, Option<(u64, Option<u64>)>)>,
    k: int,
    n: int,
)
    requires
        0 <= k <= n,
        virtio_span(nodes, k) is None,
    ensures
        virtio_span(nodes, n) is None,
    decreases n,
{
    if k < n {
        lemma_span_lost(nodes, k, n - 1);
    }
}

/// Merges the register windows of all virtio-mmio nodes into one.
pub fn merge_virtio(nodes: &Vec<(Vec<Vec<u8>>, Option<(u64, Option<u64>)>)>) -> (r: Option<
    RegRange,
>)
    ensures
        r == virtio_window(tree::facts_view(nodes@)),
{
    let ghost facts = tree::facts_view(nodes@);
    let mut span = Span { first: 0xffff_ffff_ffff_ffff, last: 0, count: 0 };
    let mut k: usize = 0;
    while k < nodes.len()
        invariant
            k <= nodes@.len(),
            facts == tree::facts_view(nodes@),
            virtio_span(facts, k as int) == Some(span),
            span.count <= k,
        decreases nodes@.len() - k,
    {
        assert(facts[k as int].0 =~= nodes@[k as int].0@.map_values(|s: Vec<u8>| s@));
        assert(facts[k as int].1 == nodes@[k as int].1);
        if is_virtio(&nodes[k].0) {
            let end: Option<(u64, u64)> = match nodes[k].1 {
                Some((base, Some(size))) => match base.checked_add(size) {
                    Some(end) => Some((base, end)),
                    None => None,
                },
                _ => None,
            };
            match end {
                None => {
                    proof {
                        lemma_span_lost(facts, k + 1, facts.len() as int);
                    }
                    return None;
                },
                Some((base, end)) => {
                    if base < span.first {
                        span.first = base;
                    }
                    if end > span.last {
                        span.last = end;
                    }
                    span.count = span.count + 1;
                },
            }
        }
        k = k + 1;
    }
    if span.count == 0 || span.first >= span.last {
        return None;
    }
    let padded: u64 = match span.last.checked_add(4095) {
        None => {
            return None;
        },
        Some(padded) => padded,
    };
    proof {
        crate::util::lemma_round_up(span.last as int, 4096);
    }
    let base: u64 = span.first - span.first % 4096;
    let end: u64 = padded / 4096 * 4096;
    Some(RegRange { base, size: end - base })
}

/// What counts of each node: its compatible strings, and the register window of a virtio-mmio
/// node, as far as it can be read.
pub open spec fn virtio_facts(blob: Seq<u8>) -> Seq<(Seq<Seq<u8>>, Option<(u64, Option<u64>)>)> {
    let lists = tree::fdt_compatibles(blob);
    Seq::new(
        lists.len(),
        |i: int|
            (
                lists[i],
                if among(lists[i], dtb::text("virtio,mmio")) && tree::measurable(blob, i) {
                    tree::fdt_reg(blob, i)
                } else {
                    None
                },
            ),
    )
}

/// The window of the virtio-mmio transports of a device tree. A machine whose addresses have
/// fewer than 64 bits has none.
pub open spec fn virtio_in(blob: Seq<u8>) -> Option<RegRange> {
    if tree::listable(blob) && usize::BITS == 64 {
        virtio_window(virtio_facts(blob))
    } else {
        None
    }
}

/// The window of the virtio-mmio transports of a device tree.
pub fn discover_virtio_mmio_window(blob: &[u8]) -> (r: Option<RegRange>)
    ensures
        r == virtio_in(blob@),
{
    if usize::BITS != 64 || !tree::can_list(blob) {
        return None;
    }
    let lists: Vec<Vec<Vec<u8>>> = tree::all_compatibles(blob);
    let ghost names = tree::strings_view(lists@);
    let count: usize = lists.len();
    let mut facts: Vec<(Vec<Vec<u8>>, Option<(u64, Option<u64>)>)> = Vec::new();
    let mut i: usize = 0;
    for list in it: lists
        invariant
            usize::BITS == 64,
            names == tree::fdt_compatibles(blob@),
            names == tree::strings_view(it.seq()),
            i == it.index@,
            count == it.seq().len(),
            facts@.len() == i,
            tree::facts_view(facts@) =~= virtio_facts(blob@).take(i as int),
    {
        let ghost before = facts@;
        assert(names[i as int] == list@.map_values(|s: Vec<u8>| s@));
        let reg: Option<(u64, Option<u64>)> = if is_virtio(&list) && tree::can_measure(blob, i) {
            tree::node_reg(blob, i)
        } else {
            None
        };
        facts.push((list, reg));
        assert(tree::facts_view(facts@) =~= tree::facts_view(before).push((names[i as int], reg)));
        i = i + 1;
    }
    assert(tree::facts_view(facts@) =~= virtio_facts(blob@));
    merge_virtio(&facts)
}

/// A processor node that takes part: called `cpu@..`, and not switched off.
pub open spec fn is_cpu(child: (Seq<u8>, Seq<(Seq<u8>, Seq<u8>)>)) -> bool {
    dtb::begins_with(child.0, dtb::text("cpu@")) && match tree::prop_of(
        child.1,
        dtb::text("status"),
        0,
    ) {
        Some(status) => status == dtb::text("okay\0") || status == dtb::text("ok\0"),
        None => true,
    }
}

/// The hardware identifier of a processor node. None if it is started otherwise than through
/// the firmware, or its `reg` is short.
pub open spec fn mpidr_of(props: Seq<(Seq<u8>, Seq<u8>)>, cells: int) -> Option<u64> {
    let firmware = match tree::prop_of(props, dtb::text("enable-method"), 0) {
        Some(method) => method == dtb::text("psci\0"),
        None => true,
    };
    match tree::prop_of(props, dtb::text("reg"), 0) {
        Some(reg) if firmware && reg.len() >= 4 * cells => Some(dtb::cells(reg, 0, cells) as u64),
        _ => None,
    }
}

/// The processors among the first `k` child nodes.
pub open spec fn cpus_of(
    children: Seq<(Seq<u8>, Seq<(Seq<u8>, Seq<u8>)>)>,
    cells: int,
    k: int,
) -> Option<CpuTopology>
    decreases k,
{
    if k <= 0 {
        Some(CpuTopology::none())
    } else {
        match cpus_of(children, cells, k - 1) {
            None => None,
            Some(cpus) => if !is_cpu(children[k - 1]) {
                Some(cpus)
            } else {
                match mpidr_of(children[k - 1].1, cells) {
                    Some(mpidr) if cpus.count < MAX_CPUS => Some(cpus.with(mpidr)),
                    _ => None,
                }
            },
        }
    }
}

/// Number of cells of a processor's identifier, by the `#address-cells` of `/cpus`.
pub open spec fn cpu_cells(value: Option<Seq<u8>>) -> int {
    match value {
        Some(value) if value.len() >= 4 => dtb::word(value, 0),
        _ => 1,
    }
}

/// The processors below a `/cpus` node: exactly as many as the kernel runs on.
pub open spec fn topology_of(
    address_cells: Option<Seq<u8>>,
    children: Seq<(Seq<u8>, Seq<(Seq<u8>, Seq<u8>)>)>,
) -> Option<CpuTopology> {
    let cells = cpu_cells(address_cells);
    if cells < 1 || cells > 2 {
        None
    } else {
        match cpus_of(children, cells, children.len() as int) {
            Some(cpus) if cpus.count == MAX_CPUS => Some(cpus),
            _ => None,
        }
    }
}

/// A value that may be missing.
pub open spec fn value_view(value: Option<Vec<u8>>) -> Option<Seq<u8>> {
    match value {
        Some(bytes) => Some(bytes@),
        None => None,
    }
}

/// The firmware is called by a secure monitor call.
pub open spec fn is_smc(method: Option<Seq<u8>>) -> bool {
    method == Some(dtb::text("smc\0"))
}

/// Whether the `method` of the firmware node says that it is called by a secure monitor call.
pub fn uses_smc(method: &Option<Vec<u8>>) -> (r: bool)
    ensures
        r == is_smc(value_view(*method)),
{
    match method {
        Some(method) => dtb::is_text(method.as_slice(), "smc\0"),
        None => false,
    }
}

proof fn lemma_cpus_lost(
    children: Seq<(Seq<u8>, Seq<(Seq<u8>, Seq<u8>)>)>,
    cells: int,
    k: int,
    n: int,
)
    requires
        0 <= k <= n,
        cpus_of(children, cells, k) is None,
    ensures
        cpus_of(children, cells, n) is None,
    decreases n,
{
    if k < n {
        lemma_cpus_lost(children, cells, k, n - 1);
    }
}

fn takes_part(name: &Vec<u8>, props: &Vec<(Vec<u8>, Vec<u8>)>) -> (r: bool)
    ensures
        r == is_cpu((name@, tree::props_view(props@))),
{
    dtb::starts_with(name.as_slice(), "cpu@") && match tree::property(props, "status") {
        Some(status) => dtb::is_text(status, "okay\0") || dtb::is_text(status, "ok\0"),
        None => true,
    }
}

fn read_mpidr(props: &Vec<(Vec<u8>, Vec<u8>)>, cells: usize) -> (r: Option<u64>)
    requires
        1 <= cells <= 2,
    ensures
        r == mpidr_of(tree::props_view(props@), cells as int),
{
    if let Some(method) = tree::property(props, "enable-method") {
        if !dtb::is_text(method, "psci\0") {
            return None;
        }
    }
    match tree::property(props, "reg") {
        None => None,
        Some(reg) => if reg.len() < 4 * cells {
            None
        } else {
            Some(dtb::read_cells(reg, 0, cells))
        },
    }
}

/// Reads the processors below a `/cpus` node.
pub fn read_topology(
    address_cells: &Option<Vec<u8>>,
    children: &Vec<(Vec<u8>, Vec<(Vec<u8>, Vec<u8>)>)>,
) -> (r: Option<CpuTopology>)
    ensures
        r == topology_of(value_view(*address_cells), tree::children_view(children@)),
        r is Some ==> r->0.count == 4,
{
    let cells: u32 = match address_cells {
        Some(value) => if value.len() >= 4 {
            read_be(value.as_slice(), 0)
        } else {
            1
        },
        None => 1,
    };
    if cells == 0 || cells > 2 {
        return None;
    }
    let ghost all = tree::children_view(children@);
    let mut cpus = CpuTopology { count: 0, mpidrs: [0u64;4] };
    assert(cpus =~= CpuTopology::none());
    let mut k: usize = 0;
    while k < children.len()
        invariant
            k <= children@.len(),
            1 <= cells <= 2,
            all == tree::children_view(children@),
            cells == cpu_cells(value_view(*address_cells)),
            cpus.count <= 4,
            cpus_of(all, cells as int, k as int) == Some(cpus),
        decreases children@.len() - k,
    {
        assert(all[k as int] == (children@[k as int].0@, tree::props_view(children@[k as int].1@)));
        if takes_part(&children[k].0, &children[k].1) {
            let mpidr: Option<u64> = read_mpidr(&children[k].1, cells as usize);
            match mpidr {
                Some(mpidr) if cpus.count < MAX_CPUS => {
                    let place: usize = cpus.count;
                    cpus.mpidrs[place] = mpidr;
                    cpus.count = place + 1;
                },
                _ => {
                    proof {
                        lemma_cpus_lost(all, cells as int, k + 1, all.len() as int);
                    }
                    return None;
                },
            }
        }
        k = k + 1;
    }
    if cpus.count == MAX_CPUS {
        Some(cpus)
    } else {
        None
    }
}

/// The processors of a device tree whose firmware is called by a secure monitor call.
pub open spec fn cpus_in(blob: Seq<u8>) -> Option<CpuTopology> {
    if !tree::navigable(blob, dtb::text("/psci"), dtb::text("method")) || !is_smc(
        tree::fdt_value(blob, "/psci"@, "method"@),
    ) || !tree::navigable(blob, dtb::text("/cpus"), dtb::text("#address-cells"))
        || !tree::explorable(blob, dtb::text("/cpus")) {
        None
    } else {
        match tree::fdt_children(blob, "/cpus"@) {
            None => None,
            Some(children) => topology_of(
                tree::fdt_value(blob, "/cpus"@, "#address-cells"@),
                children,
            ),
        }
    }
}

/// Finds the processors: how the firmware starts them, and their hardware identifiers.
pub fn discover_cpus(blob: &[u8]) -> (r: Option<CpuTopology>)
    ensures
        r == cpus_in(blob@),
        r is Some ==> r->0.count == 4,
{
    if !tree::can_navigate(blob, "/psci", "method") || !uses_smc(
        &tree::path_value(blob, "/psci", "method"),
    ) {
        return None;
    }
    if !tree::can_navigate(blob, "/cpus", "#address-cells") || !tree::can_explore(blob, "/cpus") {
        return None;
    }
    match tree::path_children(blob, "/cpus") {
        None => None,
        Some(children) => read_topology(
            &tree::path_value(blob, "/cpus", "#address-cells"),
            &children,
        ),
    }
}

/// The platform that a device tree describes. Of its parts the PCI host, the USB controller and
/// the virtio window may be missing.
pub open spec fn platform_in(blob: Seq<u8>) -> Option<PlatformResources> {
    match (
        dtb::sound_size(blob),
        dtb::gic_regs(blob),
        dtb::uart_reg(blob),
        dtb::uart_irq(blob),
        dtb::timer_irq(blob),
        cpus_in(blob),
    ) {
        (
            Some(_),
            Some((gicd_pa, gicc_pa)),
            Some(uart),
            Some(uart_irq),
            Some(timer_irq),
            Some(cpus),
        ) => Some(
            PlatformResources {
                uart,
                uart_irq,
                gicd_pa,
                gicc_pa,
                pci: match pci::host_in(blob) {
                    Some(info) => info,
                    None => PciHostInfo::none(),
                },
                xhci: dtb::rp1_xhci(blob),
                virtio_mmio: virtio_in(blob),
                timer_irq,
                cpus,
            },
        ),
        _ => None,
    }
}

/// Takes the snapshot of the platform.
pub fn discover(blob: &[u8]) -> (r: Option<PlatformResources>)
    ensures
        r == platform_in(blob@),
        r is Some ==> r->0.pci.wf() && r->0.cpus.count == 4,
{
    if dtb::total_size(blob).is_none() {
        return None;
    }
    let (gicd_pa, gicc_pa): (u64, u64) = match dtb::find_gic_regs(blob) {
        None => {
            return None;
        },
        Some(regs) => regs,
    };
    let uart: RegRange = match dtb::find_pl011_reg(blob) {
        None => {
            return None;
        },
        Some(uart) => uart,
    };
    let uart_irq: IrqSpec = match dtb::find_uart_irq(blob) {
        None => {
            return None;
        },
        Some(irq) => irq,
    };
    let timer_irq: IrqSpec = match dtb::find_nonsecure_physical_timer_irq(blob) {
        None => {
            return None;
        },
        Some(irq) => irq,
    };
    let cpus: CpuTopology = match discover_cpus(blob) {
        None => {
            return None;
        },
        Some(cpus) => cpus,
    };
    let pci: PciHostInfo = match pci::from_dtb(blob) {
        Some(info) => info,
        None => PciHostInfo::default(),
    };
    Some(
        PlatformResources {
            uart,
            uart_irq,
            gicd_pa,
            gicc_pa,
            pci,
            xhci: dtb::find_rp1_xhci(blob),
            virtio_mmio: discover_virtio_mmio_window(blob),
            timer_irq,
            cpus,
        },
    )
}

} // verus!
