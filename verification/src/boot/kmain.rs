//! From the boot shim's findings to a task that can run: memory, the kernel's address space,
//! devices, grants, the program, its memory and its first thread.
use crate::abi::{self, DeviceResource, UserBootInfo};
use crate::boot::dtb::RegRange;
use crate::boot::elf::{self, ElfError, LoadedElf};
use crate::boot_info::{BootInfo, BootRange, Framebuffer};
use crate::hw::HwOp;
use crate::interrupt::gic::{self, Gic};
use crate::machine::{Entry, Fault, Kernel, Machine, MachineView};
use crate::memory::physical::{PhysicalMemory, PHYSICAL_LIMIT};
use crate::memory::{mmu, physical, vspace};
use crate::object::task::{self, IrqGrant, MmioGrant, TaskResources};
use crate::object::{ipc, thread};
use crate::resource::protect::{self, ProtectTable};
use crate::resource::resources::{self, PlatformResources};
use vstd::prelude::*;
use vstd::slice::slice_subrange;

verus! {

/// End of the memory that the kernel maps to itself.
pub const IDENTITY_END: u64 = 0x1_8000_0000;

/// Bytes of the interrupt controller's register blocks that EL0 never gets.
pub const GIC_WINDOW: u64 = 0x10000;

/// Largest part of the PCI configuration space that is granted: one bus.
pub const ECAM_GRANT: u64 = 0x10_0000;

/// Why the kernel did not start.
#[derive(Clone, Copy, Debug, PartialEq, Eq, Structural)]
pub enum BootError {
    /// The device tree does not describe a platform that the kernel can use.
    Platform,
    /// A device window reaches past the end of the address space.
    Window,
    /// The program could not be loaded.
    Program(ElfError),
    /// No memory for the task.
    Memory,
    /// The translation tables could not be built.
    Fault(Fault),
}

/// The part of a range that the allocator may use. User addresses are not mapped to themselves,
/// so a range that reaches into their window is cut off at its end.
pub open spec fn usable(range: BootRange) -> BootRange {
    let end = range.base + range.pages * 4096;
    if range.base < abi::USER_WINDOW_END && end > abi::USER_BASE {
        if end <= abi::USER_WINDOW_END {
            BootRange { base: range.base, pages: 0 }
        } else {
            BootRange {
                base: abi::USER_WINDOW_END,
                pages: ((end - abi::USER_WINDOW_END) / 4096) as u64,
            }
        }
    } else {
        range
    }
}

/// A range that begins on a page and ends inside physical memory.
pub open spec fn sound_range(range: BootRange) -> bool {
    range.base % 4096 == 0 && range.base + range.pages * 4096 <= PHYSICAL_LIMIT
}

/// Firmware lists whole pages, and a physical address has 48 bits.
pub open spec fn sound_memory(bi: BootInfo) -> bool {
    forall|i: int| 0 <= i < bi.range_count ==> sound_range(#[trigger] bi.ranges@[i])
}

/// Whether the listed memory consists of whole pages that the processor can address.
pub fn memory_is_sound(bi: &BootInfo) -> (r: bool)
    requires
        bi.wf(),
    ensures
        r == sound_memory(*bi),
{
    let mut k: usize = 0;
    while k < bi.range_count
        invariant
            bi.wf(),
            k <= bi.range_count,
            forall|i: int| 0 <= i < k ==> sound_range(#[trigger] bi.ranges@[i]),
        decreases bi.range_count - k,
    {
        let range: BootRange = bi.ranges[k];
        if range.base % 4096 != 0 || range.base > PHYSICAL_LIMIT || range.pages > (PHYSICAL_LIMIT
            - range.base) / 4096 {
            assert(!sound_range(bi.ranges@[k as int]));
            return false;
        }
        k = k + 1;
    }
    true
}

/// The allocator after the first `k` ranges were added.
pub open spec fn filled_memory(mem: PhysicalMemory, bi: BootInfo, k: int) -> PhysicalMemory
    decreases k,
{
    if k <= 0 {
        PhysicalMemory { count: 0, ..mem }
    } else {
        let range = usable(bi.ranges@[k - 1]);
        filled_memory(mem, bi, k - 1).with_range(range.base, range.pages)
    }
}

/// Gives the allocator the free memory that the boot shim found, without the user window.
pub fn init_allocator_from_bootinfo(mem: &mut PhysicalMemory, bi: &BootInfo)
    requires
        bi.wf(),
        sound_memory(*bi),
    ensures
        *final(mem) == filled_memory(*old(mem), *bi, bi.range_count as int),
        final(mem).wf(),
{
    physical::init_empty(mem);
    let mut k: usize = 0;
    while k < bi.range_count
        invariant
            bi.wf(),
            sound_memory(*bi),
            k <= bi.range_count,
            *mem == filled_memory(*old(mem), *bi, k as int),
            mem.wf(),
        decreases bi.range_count - k,
    {
        let range: BootRange = bi.ranges[k];
        assert(sound_range(bi.ranges@[k as int]));
        let mut base: u64 = range.base;
        let mut pages: u64 = range.pages;
        let end: u64 = base + pages * 4096;
        if base < abi::USER_WINDOW_END && end > abi::USER_BASE {
            if end <= abi::USER_WINDOW_END {
                pages = 0;
            } else {
                base = abi::USER_WINDOW_END;
                pages = (end - abi::USER_WINDOW_END) / 4096;
            }
        }
        physical::add_range(mem, base, pages);
        k = k + 1;
    }
}

/// The allocator holds no page of the user window, whatever the boot shim found.
pub proof fn law_user_window_is_not_allocated(mem: PhysicalMemory, bi: BootInfo, k: int, a: int)
    requires
        0 <= k <= 64,
        abi::USER_BASE <= a < abi::USER_WINDOW_END,
    ensures
        !filled_memory(mem, bi, k).is_free(a),
    decreases k,
{
    if k > 0 {
        law_user_window_is_not_allocated(mem, bi, k - 1, a);
        let before = filled_memory(mem, bi, k - 1);
        let after = filled_memory(mem, bi, k);
        if after != before {
            let n = before.count as int;
            assert forall|i: int| 0 <= i < after.count implies !(#[trigger] after.ranges@[i]).covers(
                a,
            ) by {
                if i < n {
                    assert(after.ranges@[i] == before.ranges@[i]);
                }
            }
        }
    }
}

impl MachineView {
    /// The kernel maps memory to itself, but for the user window, and switches to that map.
    pub open spec fn map_kernel(self) -> (MachineView, Result<u64, Fault>) {
        let (s, root) = self.new_table();
        match root {
            None => (s, Err(Fault::NoTableMemory)),
            Some(root) => {
                let (t, fault) = s.map_blocks(
                    root,
                    0,
                    mmu::MMU_KERNEL,
                    abi::USER_BASE as int,
                    abi::USER_WINDOW_END as int,
                    mmu::blocks_in(0, IDENTITY_END as int),
                );
                match fault {
                    Some(fault) => (t, Err(fault)),
                    None => (
                        MachineView { k: Kernel { active_table: root, ..t.k }, ..t }.op(
                            HwOp::SwitchTable { root, asid: 0 },
                        ),
                        Ok(root),
                    ),
                }
            },
        }
    }

    /// The block that holds `pa` becomes device memory of the kernel.
    pub open spec fn map_device(self, root: u64, pa: u64) -> (MachineView, Option<Fault>) {
        let block = pa - pa % 0x20_0000;
        self.map_block(root, block, block as u64, mmu::MMU_DEV)
    }

    pub open spec fn with_protect(self, table: ProtectTable) -> MachineView {
        MachineView { k: Kernel { protect: table, ..self.k }, ..self }
    }

    /// Console and interrupt controller are mapped for the kernel; the controller is started
    /// and kept from EL0.
    pub open spec fn attach_devices(self, root: u64, p: PlatformResources) -> (
        MachineView,
        Option<Fault>,
    ) {
        let counted = MachineView {
            k: Kernel {
                smp: crate::arch::smp::Smp { cpu_count: p.cpus.count, ..self.k.smp },
                ..self.k
            },
            ..self
        };
        let (s, f1) = counted.map_device(root, p.uart.base);
        let flushed = s.op(HwOp::FlushTlb);
        let with_uart = flushed.with_protect(
            flushed.k.protect.registered(p.uart.base, p.uart.size),
        );
        let (t, f2) = with_uart.map_device(root, p.gicd_pa);
        let (u, f3) = t.map_device(root, p.gicc_pa);
        if f1 is Some {
            (s, f1)
        } else if f2 is Some {
            (t, f2)
        } else if f3 is Some {
            (u, f3)
        } else {
            let ready = u.op(HwOp::FlushTlb).started_gic(p.gicd_pa, p.gicc_pa);
            (
                ready.with_protect(
                    ready.k.protect.denying(p.gicd_pa, GIC_WINDOW).denying(
                        p.gicc_pa,
                        GIC_WINDOW,
                    ),
                ).with_spaces(
                    ready.k.spaces.initialized(root, p.uart.base, p.gicd_pa, p.gicc_pa),
                ),
                None,
            )
        }
    }

    pub open spec fn started_gic(self, gicd_pa: u64, gicc_pa: u64) -> MachineView {
        MachineView {
            k: Kernel { gic: Gic { dist_base: gicd_pa, cpu_base: gicc_pa }, ..self.k },
            ..self
        }.with_ops(
            seq![HwOp::DistModify { offset: gic::GICD_CTLR, clear: 0, set: 1 }]
                + Gic::cpu_interface_ops() + seq![HwOp::Barrier],
        )
    }
}

/// Builds the kernel's own map and switches to it.
pub fn map_kernel(m: &mut Machine) -> (r: Result<u64, Fault>)
    requires
        old(m)@.wf(),
    ensures
        (final(m)@, r) == old(m)@.map_kernel(),
        final(m)@.wf(),
{
    let root: u64 = match mmu::try_create_table(m) {
        None => {
            return Err(Fault::NoTableMemory);
        },
        Some(root) => root,
    };
    proof {
        mmu::lemma_kernel_presets();
    }
    if let Err(fault) = mmu::map_range_2m(
        m,
        root,
        0,
        IDENTITY_END,
        mmu::MMU_KERNEL,
        abi::USER_BASE,
        abi::USER_WINDOW_END,
    ) {
        return Err(fault);
    }
    mmu::activate(m, root);
    Ok(root)
}

fn map_device(m: &mut Machine, root: u64, pa: u64) -> (r: Option<Fault>)
    requires
        old(m)@.wf(),
    ensures
        (final(m)@, r) == old(m)@.map_device(root, pa),
        final(m)@.wf(),
{
    proof {
        mmu::lemma_kernel_presets();
    }
    let block: u64 = pa - pa % 0x20_0000;
    match mmu::map_block_2m(m, root, block, block, mmu::MMU_DEV) {
        Ok(()) => None,
        Err(fault) => Some(fault),
    }
}

/// Maps and starts the devices that the kernel itself uses.
pub fn attach_devices(m: &mut Machine, root: u64, platform: &PlatformResources) -> (r: Option<
    Fault,
>)
    requires
        old(m)@.wf(),
        platform.cpus.count <= 4,
    ensures
        (final(m)@, r) == old(m)@.attach_devices(root, *platform),
        final(m)@.wf(),
{
    crate::arch::smp::set_cpu_count(&mut m.k.smp, platform.cpus.count);
    if let Some(fault) = map_device(m, root, platform.uart.base) {
        return Some(fault);
    }
    mmu::flush_el1_tlb(m);
    protect::register(&mut m.k.protect, platform.uart.base, platform.uart.size);
    if let Some(fault) = map_device(m, root, platform.gicd_pa) {
        return Some(fault);
    }
    if let Some(fault) = map_device(m, root, platform.gicc_pa) {
        return Some(fault);
    }
    mmu::flush_el1_tlb(m);
    let ghost before = m@;
    gic::init(&mut m.k.gic, &mut m.ops, platform.gicd_pa, platform.gicc_pa);
    assert(m@ =~= before.started_gic(platform.gicd_pa, platform.gicc_pa));
    protect::deny(&mut m.k.protect, platform.gicd_pa, GIC_WINDOW);
    protect::deny(&mut m.k.protect, platform.gicc_pa, GIC_WINDOW);
    vspace::initialize(
        &mut m.k.spaces,
        root,
        platform.uart.base,
        platform.gicd_pa,
        platform.gicc_pa,
    );
    None
}

/// The window of a device as a grant: from its page on, in whole pages.
pub open spec fn page_grant(reg: RegRange) -> MmioGrant {
    MmioGrant {
        base: (reg.base - reg.base % 4096) as u64,
        size: crate::util::round_up(reg.size as int, 4096) as u64,
    }
}

/// The size of a window can be rounded up.
pub open spec fn roundable(reg: RegRange) -> bool {
    reg.size + 4095 <= u64::MAX
}

/// The windows that are granted in whole pages can be rounded up.
pub open spec fn grantable(p: PlatformResources) -> bool {
    roundable(p.uart) && match p.xhci {
        Some((reg, _)) => roundable(reg),
        None => true,
    }
}

/// A PCI window for memory, 32-bit or 64-bit.
pub open spec fn is_memory_range(range: abi::PciRange) -> bool {
    (range.flags / 0x100_0000) % 4 >= 2
}

/// The memory windows among the first `k` PCI ranges.
pub open spec fn pci_windows(p: PlatformResources, k: int) -> Seq<RegRange>
    decreases k,
{
    if k <= 0 {
        seq![]
    } else {
        let before = pci_windows(p, k - 1);
        let range = p.pci.ranges@[k - 1];
        if is_memory_range(range) {
            before.push(RegRange { base: range.parent_base, size: range.size })
        } else {
            before
        }
    }
}

/// Device windows that a task may get, besides the console's.
pub open spec fn windows(p: PlatformResources) -> Seq<RegRange> {
    let xhci = match p.xhci {
        Some((reg, _)) => seq![reg],
        None => seq![],
    };
    let virtio = match p.virtio_mmio {
        Some(window) => seq![window],
        None => seq![],
    };
    let pci = if p.pci.present != 0 {
        seq![RegRange { base: p.pci.ecam_pa, size: p.pci.ecam_size }] + pci_windows(
            p,
            p.pci.range_count as int,
        )
    } else {
        seq![]
    };
    xhci + virtio + pci
}

pub open spec fn as_grant() -> spec_fn(RegRange) -> MmioGrant {
    |reg: RegRange| MmioGrant { base: reg.base, size: reg.size }
}

/// The device windows that the task is granted. Of the PCI configuration space it gets the
/// first bus.
pub open spec fn mmio_grants(p: PlatformResources) -> Seq<MmioGrant> {
    let xhci = match p.xhci {
        Some((reg, _)) => seq![page_grant(reg)],
        None => seq![],
    };
    let virtio = match p.virtio_mmio {
        Some(window) => seq![MmioGrant { base: window.base, size: window.size }],
        None => seq![],
    };
    let pci = if p.pci.present != 0 {
        seq![
            MmioGrant {
                base: p.pci.ecam_pa,
                size: if p.pci.ecam_size < ECAM_GRANT {
                    p.pci.ecam_size
                } else {
                    ECAM_GRANT
                },
            },
        ] + pci_windows(p, p.pci.range_count as int).map_values(as_grant())
    } else {
        seq![]
    };
    seq![page_grant(p.uart)] + xhci + virtio + pci
}

/// Some grant is for this interrupt.
pub open spec fn grants_irq(grants: Seq<IrqGrant>, intid: u32) -> bool {
    exists|i: int| 0 <= i < grants.len() && (#[trigger] grants[i]).intid == intid
}

/// One more interrupt, unless it is granted already or there is no room.
pub open spec fn with_irq(grants: Seq<IrqGrant>, intid: u32, flags: u32) -> Seq<IrqGrant> {
    if grants.len() >= task::MAX_IRQ_GRANTS || grants_irq(grants, intid) {
        grants
    } else {
        grants.push(IrqGrant { intid, flags })
    }
}

/// The interrupts of the first `k` PCI routes besides those in `grants`.
pub open spec fn with_routes(grants: Seq<IrqGrant>, p: PlatformResources, k: int) -> Seq<IrqGrant>
    decreases k,
{
    if k <= 0 {
        grants
    } else {
        let route = p.pci.intx_routes@[k - 1];
        with_irq(with_routes(grants, p, k - 1), route.intid, route.flags)
    }
}

/// The interrupts that the task is granted, each once.
pub open spec fn irq_grants(p: PlatformResources) -> Seq<IrqGrant> {
    let uart = seq![IrqGrant { intid: p.uart_irq.intid, flags: p.uart_irq.flags }];
    let direct = match p.xhci {
        Some((_, irq)) => with_irq(uart, irq.intid, irq.flags),
        None => uart,
    };
    with_routes(direct, p, p.pci.intx_route_count as int)
}

/// No interrupt is granted twice.
pub proof fn law_irq_granted_once(p: PlatformResources, i: int, j: int)
    requires
        p.pci.wf(),
        0 <= i < j < irq_grants(p).len(),
    ensures
        irq_grants(p)[i].intid != irq_grants(p)[j].intid,
{
    let uart = seq![IrqGrant { intid: p.uart_irq.intid, flags: p.uart_irq.flags }];
    let direct = match p.xhci {
        Some((_, irq)) => with_irq(uart, irq.intid, irq.flags),
        None => uart,
    };
    assert(irqs_distinct(uart));
    if let Some((_, irq)) = p.xhci {
        lemma_irq_added(uart, irq.intid, irq.flags);
    }
    lemma_routes_distinct(direct, p, p.pci.intx_route_count as int);
}

pub open spec fn irqs_distinct(grants: Seq<IrqGrant>) -> bool {
    forall|i: int, j: int|
        0 <= i < j < grants.len() ==> (#[trigger] grants[i]).intid != (#[trigger] grants[j]).intid
}

proof fn lemma_irq_added(grants: Seq<IrqGrant>, intid: u32, flags: u32)
    requires
        irqs_distinct(grants),
    ensures
        irqs_distinct(with_irq(grants, intid, flags)),
{
    let more = with_irq(grants, intid, flags);
    if more != grants {
        assert forall|i: int, j: int| 0 <= i < j < more.len() implies (#[trigger] more[i]).intid != (
        #[trigger] more[j]).intid by {
            assert(more[i] == grants[i]);
            if j < grants.len() {
                assert(more[j] == grants[j]);
            }
        }
    }
}

proof fn lemma_routes_distinct(grants: Seq<IrqGrant>, p: PlatformResources, k: int)
    requires
        irqs_distinct(grants),
    ensures
        irqs_distinct(with_routes(grants, p, k)),
    decreases k,
{
    if k > 0 {
        lemma_routes_distinct(grants, p, k - 1);
        let route = p.pci.intx_routes@[k - 1];
        lemma_irq_added(with_routes(grants, p, k - 1), route.intid, route.flags);
    }
}

fn to_page_grant(reg: &RegRange) -> (r: Option<MmioGrant>)
    ensures
        match r {
            Some(grant) => roundable(*reg) && grant == page_grant(*reg),
            None => !roundable(*reg),
        },
{
    match reg.size.checked_add(4095) {
        None => None,
        Some(padded) => {
            proof {
                crate::util::lemma_round_up(reg.size as int, 4096);
            }
            Some(MmioGrant { base: reg.base - reg.base % 4096, size: padded / 4096 * 4096 })
        },
    }
}

fn list_pci_windows(p: &PlatformResources) -> (r: Vec<RegRange>)
    requires
        p.pci.wf(),
    ensures
        r@ == pci_windows(*p, p.pci.range_count as int),
        r@.len() <= 3,
{
    let mut out: Vec<RegRange> = Vec::new();
    let count: usize = p.pci.range_count as usize;
    let mut k: usize = 0;
    while k < count
        invariant
            p.pci.wf(),
            count == p.pci.range_count,
            k <= count,
            out@ == pci_windows(*p, k as int),
            out@.len() <= k,
        decreases count - k,
    {
        let range: abi::PciRange = p.pci.ranges[k];
        if (range.flags / 0x100_0000) % 4 >= 2 {
            out.push(RegRange { base: range.parent_base, size: range.size });
        }
        k = k + 1;
    }
    out
}

/// Registers every device window that a task may get, besides the console's.
pub fn register_windows(table: &mut ProtectTable, p: &PlatformResources)
    requires
        old(table).wf(),
        p.pci.wf(),
    ensures
        *final(table) == crate::boot::dtb::registered(
            *old(table),
            windows(*p),
            windows(*p).len() as int,
        ),
        final(table).wf(),
{
    let mut all: Vec<RegRange> = Vec::new();
    if let Some((reg, _)) = p.xhci {
        all.push(reg);
    }
    if let Some(window) = p.virtio_mmio {
        all.push(window);
    }
    if p.pci.present != 0 {
        all.push(RegRange { base: p.pci.ecam_pa, size: p.pci.ecam_size });
        let mut ranges: Vec<RegRange> = list_pci_windows(p);
        all.append(&mut ranges);
    }
    assert(all@ =~= windows(*p));
    let mut k: usize = 0;
    while k < all.len()
        invariant
            k <= all@.len(),
            table.wf(),
            *table == crate::boot::dtb::registered(*old(table), all@, k as int),
        decreases all@.len() - k,
    {
        protect::register(table, all[k].base, all[k].size);
        k = k + 1;
    }
}

/// Lists the device windows that the task is granted; none if one cannot be rounded to pages.
pub fn plan_mmio_grants(p: &PlatformResources) -> (r: Option<Vec<MmioGrant>>)
    requires
        p.pci.wf(),
    ensures
        match r {
            Some(grants) => grants@ == mmio_grants(*p) && grants@.len() <= 7,
            None => true,
        },
        r is Some <==> grantable(*p),
{
    let mut all: Vec<MmioGrant> = Vec::new();
    match to_page_grant(&p.uart) {
        None => {
            return None;
        },
        Some(grant) => {
            all.push(grant);
        },
    }
    if let Some((reg, _)) = p.xhci {
        match to_page_grant(&reg) {
            None => {
                return None;
            },
            Some(grant) => {
                all.push(grant);
            },
        }
    }
    if let Some(window) = p.virtio_mmio {
        all.push(MmioGrant { base: window.base, size: window.size });
    }
    if p.pci.present != 0 {
        let size: u64 = if p.pci.ecam_size < ECAM_GRANT {
            p.pci.ecam_size
        } else {
            ECAM_GRANT
        };
        all.push(MmioGrant { base: p.pci.ecam_pa, size });
        let ranges: Vec<RegRange> = list_pci_windows(p);
        let ghost before = all@;
        let mut k: usize = 0;
        while k < ranges.len()
            invariant
                k <= ranges@.len(),
                all@ == before + ranges@.take(k as int).map_values(as_grant()),
            decreases ranges@.len() - k,
        {
            all.push(MmioGrant { base: ranges[k].base, size: ranges[k].size });
            k = k + 1;
            assert(all@ =~= before + ranges@.take(k as int).map_values(as_grant()));
        }
        assert(ranges@.take(k as int) =~= ranges@);
    }
    assert(all@ =~= mmio_grants(*p));
    Some(all)
}

fn add_irq(grants: &mut Vec<IrqGrant>, intid: u32, flags: u32)
    ensures
        final(grants)@ == with_irq(old(grants)@, intid, flags),
{
    if grants.len() >= task::MAX_IRQ_GRANTS {
        return;
    }
    let mut i: usize = 0;
    while i < grants.len()
        invariant
            i <= grants@.len(),
            grants@ == old(grants)@,
            forall|j: int| 0 <= j < i ==> (#[trigger] grants@[j]).intid != intid,
        decreases grants@.len() - i,
    {
        if grants[i].intid == intid {
            assert(grants@[i as int].intid == intid);
            return;
        }
        i = i + 1;
    }
    grants.push(IrqGrant { intid, flags });
}

/// Lists the interrupts that the task is granted.
pub fn plan_irq_grants(p: &PlatformResources) -> (r: Vec<IrqGrant>)
    requires
        p.pci.wf(),
    ensures
        r@ == irq_grants(*p),
{
    let mut all: Vec<IrqGrant> = Vec::new();
    all.push(IrqGrant { intid: p.uart_irq.intid, flags: p.uart_irq.flags });
    assert(all@ =~= seq![IrqGrant { intid: p.uart_irq.intid, flags: p.uart_irq.flags }]);
    if let Some((_, irq)) = p.xhci {
        add_irq(&mut all, irq.intid, irq.flags);
    }
    let ghost direct = all@;
    let count: usize = p.pci.intx_route_count as usize;
    let mut k: usize = 0;
    while k < count
        invariant
            p.pci.wf(),
            count == p.pci.intx_route_count,
            k <= count,
            all@ == with_routes(direct, *p, k as int),
        decreases count - k,
    {
        add_irq(&mut all, p.pci.intx_routes[k].intid, p.pci.intx_routes[k].flags);
        k = k + 1;
    }
    all
}

/// What the task is told of its platform.
pub open spec fn told(p: PlatformResources) -> UserBootInfo {
    UserBootInfo {
        magic: abi::USER_BOOT_INFO_MAGIC,
        version: abi::USER_BOOT_INFO_VERSION,
        size: abi::USER_BOOT_INFO_BYTES,
        uart: DeviceResource {
            base: p.uart.base,
            size: p.uart.size,
            intid: p.uart_irq.intid,
        },
        xhci: match p.xhci {
            Some((reg, irq)) => DeviceResource { base: reg.base, size: reg.size, intid: irq.intid },
            None => DeviceResource { base: 0, size: 0, intid: 0 },
        },
        virtio_mmio: match p.virtio_mmio {
            Some(window) => DeviceResource { base: window.base, size: window.size, intid: 0 },
            None => DeviceResource { base: 0, size: 0, intid: 0 },
        },
        xhci_transport: if p.xhci is Some {
            abi::XHCI_TRANSPORT_DIRECT
        } else if p.pci.present != 0 {
            abi::XHCI_TRANSPORT_PCI
        } else {
            abi::XHCI_TRANSPORT_NONE
        },
        cpu_count: p.cpus.count as u32,
        pci: p.pci,
    }
}

/// Puts together what the task is told of its platform.
pub fn user_boot_info(p: &PlatformResources) -> (r: UserBootInfo)
    ensures
        r == told(*p),
{
    let none = DeviceResource { base: 0, size: 0, intid: 0 };
    UserBootInfo {
        magic: abi::USER_BOOT_INFO_MAGIC,
        version: abi::USER_BOOT_INFO_VERSION,
        size: abi::USER_BOOT_INFO_BYTES,
        uart: DeviceResource { base: p.uart.base, size: p.uart.size, intid: p.uart_irq.intid },
        xhci: match p.xhci {
            Some((reg, irq)) => DeviceResource { base: reg.base, size: reg.size, intid: irq.intid },
            None => none,
        },
        virtio_mmio: match p.virtio_mmio {
            Some(window) => DeviceResource { base: window.base, size: window.size, intid: 0 },
            None => none,
        },
        xhci_transport: if p.xhci.is_some() {
            abi::XHCI_TRANSPORT_DIRECT
        } else if p.pci.present != 0 {
            abi::XHCI_TRANSPORT_PCI
        } else {
            abi::XHCI_TRANSPORT_NONE
        },
        cpu_count: p.cpus.count as u32,
        pci: p.pci,
    }
}

/// The memory of a new task.
#[derive(Clone, Copy)]
#[verifier::ext_equal]
pub struct TaskMemory {
    pub loaded: LoadedElf,
    pub stack_pa: u64,
    pub heap_pa: u64,
    pub boot_info_pa: u64,
    pub ipc_pa: u64,
}

impl TaskMemory {
    pub open spec fn wf(self) -> bool {
        &&& self.loaded.wf()
        &&& PhysicalMemory::returnable(self.stack_pa, 16)
        &&& PhysicalMemory::returnable(self.heap_pa, 1024)
        &&& PhysicalMemory::returnable(self.boot_info_pa, 1)
        &&& PhysicalMemory::returnable(self.ipc_pa, 1)
    }
}

/// There is no display, or its memory ends inside the address space, rounded up to whole blocks.
pub open spec fn displayable(fb: Framebuffer) -> bool {
    fb.base == 0 || fb.size == 0 || fb.base + fb.size <= u64::MAX - 0x1f_ffff
}

impl MachineView {
    /// A run of `n` pages.
    pub open spec fn take_pages(self, n: u64) -> (MachineView, Option<u64>) {
        let (mem, run) = self.k.mem.pages_alloc(n);
        (self.with_mem(mem), run)
    }

    /// Stack, heap, and the pages for boot info and messages, in this order.
    pub open spec fn take_task_pages(self, loaded: LoadedElf) -> (MachineView, Option<TaskMemory>) {
        let (s, stack) = self.take_pages(16);
        let (t, heap) = s.take_pages(1024);
        let (u, info) = t.take_pages(1);
        let (v, message) = u.take_pages(1);
        if stack is None {
            (s, None)
        } else if heap is None {
            (t, None)
        } else if info is None {
            (u, None)
        } else if message is None {
            (v, None)
        } else {
            (
                v,
                Some(
                    TaskMemory {
                        loaded,
                        stack_pa: stack->0,
                        heap_pa: heap->0,
                        boot_info_pa: info->0,
                        ipc_pa: message->0,
                    },
                ),
            )
        }
    }

    /// The program is loaded, the task gets its memory, and is told of its platform.
    pub open spec fn load_task(self, root: u64, image: Seq<u8>, info: UserBootInfo) -> (
        MachineView,
        Result<TaskMemory, BootError>,
    ) {
        let (s, loaded) = self.load_elf(root, image);
        match loaded {
            Err(error) => (s, Err(BootError::Program(error))),
            Ok(loaded) => {
                let (t, memory) = s.take_task_pages(loaded);
                match memory {
                    None => (t, Err(BootError::Memory)),
                    Some(memory) => (
                        t.op(HwOp::Zero { pa: memory.stack_pa, bytes: 65536 }).op(
                            HwOp::Zero { pa: memory.heap_pa, bytes: abi::USER_HEAP_SIZE },
                        ).op(HwOp::Zero { pa: memory.boot_info_pa, bytes: 4096 }).op(
                            HwOp::WriteBootInfo { pa: memory.boot_info_pa, info },
                        ),
                        Ok(memory),
                    ),
                }
            },
        }
    }

    /// A display's memory is mapped for the kernel.
    pub open spec fn map_display(self, root: u64, fb: Framebuffer) -> (MachineView, Option<Fault>) {
        if fb.base == 0 || fb.size == 0 {
            (self, None)
        } else {
            self.map_blocks(
                root,
                fb.base - fb.base % 0x20_0000,
                mmu::MMU_DEV,
                abi::USER_BASE as int,
                abi::USER_WINDOW_END as int,
                mmu::blocks_in(fb.base as int, fb.base + fb.size),
            )
        }
    }

    /// The task's own pages are mapped: boot info, heap, stack, and the message page of its
    /// first thread.
    pub open spec fn map_task(self, root: u64, memory: TaskMemory) -> (MachineView, Option<Fault>) {
        let (s, f1) = self.map_run(
            root,
            abi::USER_BOOT_INFO_VA as int,
            memory.boot_info_pa as int,
            mmu::MMU_USER_RO,
            1,
        );
        let (t, f2) = s.map_run(
            root,
            abi::USER_HEAP_BASE as int,
            memory.heap_pa as int,
            mmu::MMU_USER_RW,
            1024,
        );
        let (u, f3) = t.map_run(
            root,
            abi::USER_STACK_TOP - 65536,
            memory.stack_pa as int,
            mmu::MMU_USER_RW,
            16,
        );
        let (v, f4) = u.map_run(
            root,
            abi::THREAD_IPC_BUFFER_BASE as int,
            memory.ipc_pa as int,
            mmu::MMU_USER_RW,
            1,
        );
        if f1 is Some {
            (s, f1)
        } else if f2 is Some {
            (t, f2)
        } else if f3 is Some {
            (u, f3)
        } else {
            (v, f4)
        }
    }

    /// The kernel's address space is completed: console, display, the task's pages.
    pub open spec fn complete_stage1(
        self,
        root: u64,
        uart_base: u64,
        fb: Framebuffer,
        memory: TaskMemory,
    ) -> (MachineView, Option<Fault>) {
        let (s, f1) = if uart_base != 0 {
            self.map_device(root, uart_base)
        } else {
            (self, None)
        };
        let (t, f2) = s.map_display(root, fb);
        let (u, f3) = t.map_task(root, memory);
        if f1 is Some {
            (s, f1)
        } else if f2 is Some {
            (t, f2)
        } else if f3 is Some {
            (u, f3)
        } else {
            (u.op(HwOp::FlushTlb), None)
        }
    }

    /// The task exists: its resources and grants are recorded, and its first thread runs on the
    /// first processor.
    pub open spec fn install_task(
        self,
        cx: Entry,
        memory: TaskMemory,
        mmio: Seq<MmioGrant>,
        irqs: Seq<IrqGrant>,
    ) -> MachineView {
        let s = self.with_task(
            TaskResources::installed(
                memory.loaded.segments@.take(memory.loaded.segment_count as int),
                memory.stack_pa,
                memory.boot_info_pa,
                memory.heap_pa,
                mmio,
                irqs,
            ),
        );
        s.with_ipc(s.k.ipc.renewed()).first_thread(
            cx,
            memory.loaded.entry,
            abi::USER_STACK_TOP,
            memory.ipc_pa,
        )
    }

    /// From what the boot shim found to a task that can run.
    pub open spec fn boot(self, cx: Entry, bi: BootInfo, blob: Seq<u8>, image: Seq<u8>) -> (
        MachineView,
        Result<u64, BootError>,
    ) {
        let (s, root) = self.with_mem(
            filled_memory(self.k.mem, bi, bi.range_count as int),
        ).map_kernel();
        if root is Err {
            (s, Err(BootError::Fault(root->Err_0)))
        } else {
            let root = root->Ok_0;
            match resources::platform_in(blob) {
                None => (s, Err(BootError::Platform)),
                Some(p) => {
                    let (t, fault) = s.attach_devices(root, p);
                    if fault is Some {
                        (t, Err(BootError::Fault(fault->0)))
                    } else if !grantable(p) || !displayable(bi.fb) {
                        (t, Err(BootError::Window))
                    } else {
                        t.with_protect(
                            crate::boot::dtb::registered(
                                t.k.protect,
                                windows(p),
                                windows(p).len() as int,
                            ),
                        ).boot_task(cx, root, p, bi.fb, image)
                    }
                },
            }
        }
    }

    /// The task is loaded, mapped and installed; where it starts.
    pub open spec fn boot_task(
        self,
        cx: Entry,
        root: u64,
        p: PlatformResources,
        fb: Framebuffer,
        image: Seq<u8>,
    ) -> (MachineView, Result<u64, BootError>) {
        let (s, memory) = self.load_task(root, image, told(p));
        match memory {
            Err(error) => (s, Err(error)),
            Ok(memory) => {
                let (t, fault) = s.complete_stage1(root, p.uart.base, fb, memory);
                if fault is Some {
                    (t, Err(BootError::Fault(fault->0)))
                } else {
                    (
                        t.install_task(cx, memory, mmio_grants(p), irq_grants(p)),
                        Ok(memory.loaded.entry),
                    )
                }
            },
        }
    }
}

fn take_task_pages(m: &mut Machine, loaded: LoadedElf) -> (r: Option<TaskMemory>)
    requires
        old(m)@.wf(),
        loaded.wf(),
    ensures
        (final(m)@, r) == old(m)@.take_task_pages(loaded),
        final(m)@.wf(),
        r is Some ==> r->0.wf(),
{
    let stack_pa: u64 = match physical::alloc_pages(&mut m.k.mem, 16) {
        None => {
            return None;
        },
        Some(pa) => pa,
    };
    let heap_pa: u64 = match physical::alloc_pages(&mut m.k.mem, 1024) {
        None => {
            return None;
        },
        Some(pa) => pa,
    };
    let boot_info_pa: u64 = match physical::alloc_pages(&mut m.k.mem, 1) {
        None => {
            return None;
        },
        Some(pa) => pa,
    };
    let ipc_pa: u64 = match physical::alloc_pages(&mut m.k.mem, 1) {
        None => {
            return None;
        },
        Some(pa) => pa,
    };
    Some(TaskMemory { loaded, stack_pa, heap_pa, boot_info_pa, ipc_pa })
}

/// Loads the program, takes the task's memory and writes what the task is told.
pub fn load_task(m: &mut Machine, root: u64, image: &[u8], info: UserBootInfo) -> (r: Result<
    TaskMemory,
    BootError,
>)
    requires
        old(m)@.wf(),
    ensures
        (final(m)@, r) == old(m)@.load_task(root, image@, info),
        final(m)@.wf(),
        r is Ok ==> r->Ok_0.wf(),
{
    let loaded: LoadedElf = match elf::load(m, root, image) {
        Err(error) => {
            return Err(BootError::Program(error));
        },
        Ok(loaded) => loaded,
    };
    let memory: TaskMemory = match take_task_pages(m, loaded) {
        None => {
            return Err(BootError::Memory);
        },
        Some(memory) => memory,
    };
    m.ops.push(HwOp::Zero { pa: memory.stack_pa, bytes: 65536 });
    m.ops.push(HwOp::Zero { pa: memory.heap_pa, bytes: abi::USER_HEAP_SIZE });
    m.ops.push(HwOp::Zero { pa: memory.boot_info_pa, bytes: 4096 });
    m.ops.push(HwOp::WriteBootInfo { pa: memory.boot_info_pa, info });
    Ok(memory)
}

fn map_task(m: &mut Machine, root: u64, memory: &TaskMemory) -> (r: Option<Fault>)
    requires
        old(m)@.wf(),
        memory.wf(),
    ensures
        (final(m)@, r) == old(m)@.map_task(root, *memory),
        final(m)@.wf(),
{
    if let Err(fault) = mmu::map(
        m,
        root,
        abi::USER_BOOT_INFO_VA,
        memory.boot_info_pa,
        mmu::MMU_USER_RO,
        1,
    ) {
        return Some(fault);
    }
    if let Err(fault) = mmu::map(
        m,
        root,
        abi::USER_HEAP_BASE,
        memory.heap_pa,
        mmu::MMU_USER_RW,
        1024,
    ) {
        return Some(fault);
    }
    if let Err(fault) = mmu::map(
        m,
        root,
        abi::USER_STACK_TOP - 65536,
        memory.stack_pa,
        mmu::MMU_USER_RW,
        16,
    ) {
        return Some(fault);
    }
    if let Err(fault) = mmu::map(
        m,
        root,
        abi::THREAD_IPC_BUFFER_BASE,
        memory.ipc_pa,
        mmu::MMU_USER_RW,
        1,
    ) {
        return Some(fault);
    }
    None
}

fn map_display(m: &mut Machine, root: u64, fb: &Framebuffer) -> (r: Option<Fault>)
    requires
        old(m)@.wf(),
        displayable(*fb),
    ensures
        (final(m)@, r) == old(m)@.map_display(root, *fb),
        final(m)@.wf(),
{
    if fb.base == 0 || fb.size == 0 {
        return None;
    }
    proof {
        mmu::lemma_kernel_presets();
    }
    match mmu::map_range_2m(
        m,
        root,
        fb.base,
        fb.base + fb.size as u64,
        mmu::MMU_DEV,
        abi::USER_BASE,
        abi::USER_WINDOW_END,
    ) {
        Ok(()) => None,
        Err(fault) => Some(fault),
    }
}

/// Completes the kernel's address space with console, display and the task's pages.
pub fn complete_el1_stage1(
    m: &mut Machine,
    root: u64,
    uart_base: u64,
    fb: &Framebuffer,
    memory: &TaskMemory,
) -> (r: Option<Fault>)
    requires
        old(m)@.wf(),
        memory.wf(),
        displayable(*fb),
    ensures
        (final(m)@, r) == old(m)@.complete_stage1(root, uart_base, *fb, *memory),
        final(m)@.wf(),
{
    if uart_base != 0 {
        if let Some(fault) = map_device(m, root, uart_base) {
            return Some(fault);
        }
    }
    if let Some(fault) = map_display(m, root, fb) {
        return Some(fault);
    }
    if let Some(fault) = map_task(m, root, memory) {
        return Some(fault);
    }
    mmu::flush_el1_tlb(m);
    None
}

/// Records the task's resources and grants and makes its first thread.
pub fn install_task(
    m: &mut Machine,
    cx: &Entry,
    memory: &TaskMemory,
    mmio: &Vec<MmioGrant>,
    irqs: &Vec<IrqGrant>,
)
    requires
        old(m)@.wf(),
        memory.wf(),
    ensures
        final(m)@ == old(m)@.install_task(*cx, *memory, mmio@, irqs@),
        final(m)@.wf(),
{
    let segments: &[task::OwnedPages] = slice_subrange(
        memory.loaded.segments.as_slice(),
        0,
        memory.loaded.segment_count,
    );
    assert(segments@ =~= memory.loaded.segments@.take(memory.loaded.segment_count as int));
    assert forall|i: int| 0 <= i < segments@.len() implies (#[trigger] segments@[i]).wf() by {
        assert(memory.loaded.segments@[i].wf());
    }
    task::install(
        &mut m.k.task,
        segments,
        memory.stack_pa,
        memory.boot_info_pa,
        memory.heap_pa,
        mmio.as_slice(),
        irqs.as_slice(),
    );
    ipc::init(&mut m.k.ipc);
    thread::install_initial(m, cx, memory.loaded.entry, abi::USER_STACK_TOP, memory.ipc_pa);
}

fn boot_task(m: &mut Machine, cx: &Entry, root: u64, p: &PlatformResources, fb: &Framebuffer, image:
    &[u8]) -> (r: Result<u64, BootError>)
    requires
        old(m)@.wf(),
        p.pci.wf(),
        grantable(*p),
        displayable(*fb),
    ensures
        (final(m)@, r) == old(m)@.boot_task(*cx, root, *p, *fb, image@),
        final(m)@.wf(),
{
    let memory: TaskMemory = match load_task(m, root, image, user_boot_info(p)) {
        Err(error) => {
            return Err(error);
        },
        Ok(memory) => memory,
    };
    if let Some(fault) = complete_el1_stage1(m, root, p.uart.base, fb, &memory) {
        return Err(BootError::Fault(fault));
    }
    match plan_mmio_grants(p) {
        None => Err(BootError::Window),
        Some(mmio) => {
            let irqs: Vec<IrqGrant> = plan_irq_grants(p);
            install_task(m, cx, &memory, &mmio, &irqs);
            Ok(memory.loaded.entry)
        },
    }
}

/// Starts the kernel with what the boot shim found: builds its address space, attaches the
/// devices of the device tree `blob`, loads the program `image`, and installs it as the task
/// with its grants. Returns where the task starts.
pub fn el1_main(m: &mut Machine, cx: &Entry, bi: &BootInfo, blob: &[u8], image: &[u8]) -> (r:
    Result<u64, BootError>)
    requires
        old(m)@.wf(),
        bi.wf(),
        sound_memory(*bi),
    ensures
        (final(m)@, r) == old(m)@.boot(*cx, *bi, blob@, image@),
        final(m)@.wf(),
{
    init_allocator_from_bootinfo(&mut m.k.mem, bi);
    let root: u64 = match map_kernel(m) {
        Err(fault) => {
            return Err(BootError::Fault(fault));
        },
        Ok(root) => root,
    };
    let platform: PlatformResources = match resources::discover(blob) {
        None => {
            return Err(BootError::Platform);
        },
        Some(platform) => platform,
    };
    if let Some(fault) = attach_devices(m, root, &platform) {
        return Err(BootError::Fault(fault));
    }
    if plan_mmio_grants(&platform).is_none() {
        return Err(BootError::Window);
    }
    if bi.fb.base != 0 && bi.fb.size != 0 {
        match bi.fb.base.checked_add(bi.fb.size as u64) {
            None => {
                return Err(BootError::Window);
            },
            Some(end) => if end > 0xffff_ffff_ffff_ffff - 0x1f_ffff {
                return Err(BootError::Window);
            },
        }
    }
    register_windows(&mut m.k.protect, &platform);
    boot_task(m, cx, root, &platform, &bi.fb, image)
}

} // verus!
