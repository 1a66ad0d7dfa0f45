use exokernel::abi;
use exokernel::abi::{IpcMessage, ThreadCreateConfig};
use exokernel::arch::{registers, smp};
use exokernel::boot::dtb::{self, IrqSpec, RegRange};
use exokernel::boot::early;
use exokernel::boot::elf::{self, ElfError};
use exokernel::boot::kmain::{self, BootError};
use exokernel::boot_info::{
    BootInfo, BootRange, ConfigEntry, El2Regs, MemoryEntry, TableKind, CONVENTIONAL_MEMORY,
};
use exokernel::hw::HwOp;
use exokernel::machine::{new_machine, Dispatch, Entry, Fault, Machine};
use exokernel::memory::{mmu, physical};
use exokernel::object::task::MmioGrant;
use exokernel::object::thread::ThreadState;
use exokernel::resource::{pci, protect, resources, tree};

/// A device tree under construction.
struct Tree {
    words: Vec<u8>,
    names: Vec<u8>,
}

impl Tree {
    fn new() -> Tree {
        Tree { words: Vec::new(), names: Vec::new() }
    }

    fn word(&mut self, value: u32) {
        self.words.extend_from_slice(&value.to_be_bytes());
    }

    fn pad(&mut self) {
        while self.words.len() % 4 != 0 {
            self.words.push(0);
        }
    }

    fn begin(&mut self, name: &str) {
        self.word(1);
        self.words.extend_from_slice(name.as_bytes());
        self.words.push(0);
        self.pad();
    }

    fn end(&mut self) {
        self.word(2);
    }

    fn bytes(&mut self, name: &str, value: &[u8]) {
        let offset = self.names.len() as u32;
        self.names.extend_from_slice(name.as_bytes());
        self.names.push(0);
        self.word(3);
        self.word(value.len() as u32);
        self.word(offset);
        self.words.extend_from_slice(value);
        self.pad();
    }

    fn text(&mut self, name: &str, value: &str) {
        let mut bytes = value.as_bytes().to_vec();
        bytes.push(0);
        self.bytes(name, &bytes);
    }

    fn cells(&mut self, name: &str, value: &[u32]) {
        let mut bytes = Vec::new();
        for cell in value {
            bytes.extend_from_slice(&cell.to_be_bytes());
        }
        self.bytes(name, &bytes);
    }

    fn finish(mut self) -> Vec<u8> {
        self.word(9);
        let structs = 56;
        let strings = structs + self.words.len();
        let total = strings + self.names.len();
        let header = [
            0xd00d_feed,
            total as u32,
            structs as u32,
            strings as u32,
            40,
            17,
            16,
            0,
            self.names.len() as u32,
            self.words.len() as u32,
        ];
        let mut blob = Vec::new();
        for word in header.iter() {
            blob.extend_from_slice(&(*word as u32).to_be_bytes());
        }
        blob.extend_from_slice(&[0; 16]);
        blob.extend_from_slice(&self.words);
        blob.extend_from_slice(&self.names);
        blob
    }
}

/// A board like the virtual one of QEMU, with some parts left out on request.
fn board(without: &str) -> Vec<u8> {
    let mut t = Tree::new();
    t.begin("");
    t.cells("#address-cells", &[2]);
    t.cells("#size-cells", &[2]);
    t.text("compatible", "linux,dummy-virt");
    if without == "alias" {
        t.begin("aliases");
        t.text("/psci", "calls");
        t.text("calls", "/firmware/psci@0");
        t.end();
        t.begin("firmware");
    }
    t.begin(if without == "alias" { "psci@0" } else { "psci" });
    t.text("compatible", "arm,psci-1.0");
    t.text("method", if without == "smc" { "hvc" } else { "smc" });
    t.end();
    if without == "alias" {
        t.end();
    }
    t.begin("cpus");
    t.cells("#address-cells", &[1]);
    t.cells("#size-cells", &[0]);
    let count = if without == "cpu" { 3 } else { 4 };
    for cpu in 0..count {
        t.begin(&format!("cpu@{}", cpu));
        t.text("device_type", "cpu");
        t.cells("reg", &[cpu]);
        t.text("enable-method", "psci");
        t.end();
    }
    t.end();
    t.begin("intc@8000000");
    t.text("compatible", "arm,cortex-a15-gic");
    t.cells("#interrupt-cells", &[3]);
    t.cells("#address-cells", &[2]);
    t.cells("#size-cells", &[2]);
    t.cells("reg", &[0, 0x0800_0000, 0, 0x10000, 0, 0x0801_0000, 0, 0x10000]);
    t.cells("phandle", &[0x8001]);
    t.end();
    t.begin("timer");
    t.text("compatible", "arm,armv8-timer");
    t.cells("interrupts", &[1, 13, 0x104, 1, 14, 0x104, 1, 11, 0x104, 1, 10, 0x104]);
    t.end();
    if without != "uart" {
        t.begin("pl011@9000000");
        t.bytes("compatible", b"arm,pl011\0arm,primecell\0");
        t.cells("reg", &[0, 0x0900_0000, 0, 0x1000]);
        t.cells("interrupts", &[0, 1, 4]);
        t.end();
    }
    for base in [0x0a00_0200u32, 0x0a00_0000] {
        t.begin(&format!("virtio_mmio@{:x}", base));
        t.text("compatible", "virtio,mmio");
        t.cells("reg", &[0, base, 0, 0x200]);
        t.end();
    }
    t.begin("pcie@10000000");
    t.text("compatible", "pci-host-ecam-generic");
    t.cells("#address-cells", &[3]);
    t.cells("#size-cells", &[2]);
    t.cells("reg", &[0x40, 0x1000_0000, 0, 0x1000_0000]);
    t.cells("bus-range", &[2, 0xff]);
    t.cells(
        "ranges",
        &[
            0x0100_0000, 0, 0, 0, 0x3eff_0000, 0, 0x10000, 0x0200_0000, 0, 0x1000_0000, 0,
            0x1000_0000, 0, 0x2eff_0000,
        ],
    );
    t.cells("interrupt-map-mask", &[0x1800, 0, 0, 7]);
    let handle = if without == "handle" { 0x9999 } else { 0x8001 };
    t.cells(
        "interrupt-map",
        &[
            0, 0, 0, 1, handle, 0, 0, 0, 3, 4, 0x800, 0, 0, 2, handle, 0, 0, 0, 4, 4,
        ],
    );
    t.end();
    t.begin("chosen");
    t.text("stdout-path", "/pl011@9000000");
    t.end();
    if without == "behind" {
        // A node whose name is no text.
        t.word(1);
        t.word(0xff00_0000);
        t.end();
    }
    t.end();
    t.finish()
}

#[test]
fn the_parts_of_a_board_are_found() {
    let blob = board("");
    assert_eq!(dtb::total_size(&blob), Some(blob.len() as u64));
    assert_eq!(dtb::find_gic_regs(&blob), Some((0x0800_0000, 0x0801_0000)));
    assert_eq!(
        dtb::find_pl011_reg(&blob),
        Some(RegRange { base: 0x0900_0000, size: 0x1000 })
    );
    assert_eq!(dtb::find_uart_irq(&blob), Some(IrqSpec { intid: 33, flags: 4 }));
    assert_eq!(dtb::find_uart_intid(&blob), Some(33));
    assert_eq!(
        dtb::find_nonsecure_physical_timer_irq(&blob),
        Some(IrqSpec { intid: 30, flags: 0x104 })
    );
    assert_eq!(dtb::find_rp1_xhci(&blob), None);
    assert_eq!(dtb::total_size(&[0; 64]), None);
    assert_eq!(dtb::find_gic_regs(&[0; 64]), None);
}

#[test]
fn the_pci_host_is_read_with_its_routes() {
    let host = pci::from_dtb(&board("")).unwrap();
    assert_eq!(host.present, 1);
    assert_eq!(host.ecam_pa, 0x40_1000_0000);
    assert_eq!(host.ecam_size, 0x1000_0000);
    assert_eq!(host.bus_start, 2);
    assert_eq!(host.range_count, 2);
    assert_eq!(host.ranges[1].flags, 0x0200_0000);
    assert_eq!(host.ranges[1].parent_base, 0x1000_0000);
    assert_eq!(host.ranges[1].size, 0x2eff_0000);
    assert_eq!(host.interrupt_map_mask_hi, 0x1800);
    assert_eq!(host.interrupt_map_mask_pin, 7);
    assert_eq!(host.intx_route_count, 2);
    assert_eq!(host.intx_routes[0].intid, 35);
    assert_eq!(host.intx_routes[1].child_address_hi, 0x800);
    assert_eq!(host.intx_routes[1].pin, 2);
    assert_eq!(host.intx_routes[1].intid, 36);
    // A handle that leads nowhere spoils the whole host.
    assert!(pci::from_dtb(&board("handle")).is_none());
    assert!(pci::from_dtb(&[]).is_none());
}

#[test]
fn processors_and_virtio_windows_are_found() {
    let blob = board("");
    assert!(tree::can_search(&blob, "pci-host-ecam-generic") && tree::can_list(&blob));
    assert!(tree::can_navigate(&blob, "/psci", "method") && tree::can_explore(&blob, "/cpus"));
    let cpus = resources::discover_cpus(&blob).unwrap();
    assert_eq!(cpus.count, 4);
    assert_eq!(cpus.mpidrs, [0, 1, 2, 3]);
    assert!(resources::discover_cpus(&board("smc")).is_none());
    assert!(resources::discover_cpus(&board("cpu")).is_none());
    assert_eq!(
        resources::discover_virtio_mmio_window(&blob),
        Some(RegRange { base: 0x0a00_0000, size: 0x1000 })
    );
    let mut bare = Tree::new();
    bare.begin("");
    bare.end();
    assert_eq!(resources::discover_virtio_mmio_window(&bare.finish()), None);
}

#[test]
fn a_platform_needs_its_console() {
    let platform = resources::discover(&board("")).unwrap();
    assert_eq!(platform.uart.base, 0x0900_0000);
    assert_eq!(platform.gicc_pa, 0x0801_0000);
    assert_eq!(platform.pci.present, 1);
    assert!(platform.xhci.is_none());
    assert!(resources::discover(&board("uart")).is_none());
    assert_eq!(resources::discover(&board("handle")).unwrap().pci.present, 0);
}

#[test]
fn addresses_are_translated_along_the_buses() {
    let mut t = Tree::new();
    t.begin("");
    t.cells("#address-cells", &[2]);
    t.cells("#size-cells", &[1]);
    t.begin("soc");
    t.cells("#address-cells", &[1]);
    t.cells("#size-cells", &[1]);
    t.cells("ranges", &[0x4000_0000, 0x1f, 0, 0x10_0000]);
    t.begin("usb@40010000");
    t.text("compatible", "snps,dwc3");
    t.cells("reg", &[0x4001_0000, 0x2000]);
    t.cells("interrupts", &[0x1f, 4]);
    t.end();
    t.end();
    t.end();
    assert_eq!(
        dtb::find_rp1_xhci(&t.finish()),
        Some((
            RegRange { base: 0x1f_0001_0000, size: 0x2000 },
            IrqSpec { intid: 0x9e, flags: 4 }
        ))
    );
}

#[test]
fn registers_of_a_tree_are_admitted() {
    let mut table = protect::empty_protect_table();
    let blob = board("");
    dtb::parse(&blob, &mut table);
    assert!(protect::contains_range(&table, 0x0900_0000, 0x1000));
    assert!(protect::contains_range(&table, 0x0801_0000, 0x100));
    assert!(!protect::contains_range(&table, 0x0901_0000, 0x1000));
    protect::deny(&mut table, 0x0801_0000, 0x10000);
    assert!(!protect::contains_range(&table, 0x0801_0000, 0x100));
    assert!(protect::contains_range(&table, 0x0900_0000, 0x1000));
}

/// A program with one segment of code.
fn program(flags: u32, vaddr: u64, file_size: u64, mem_size: u64) -> Vec<u8> {
    let mut image = vec![0u8; 0x1000];
    image[..6].copy_from_slice(&[0x7f, b'E', b'L', b'F', 2, 1]);
    image[18..20].copy_from_slice(&183u16.to_le_bytes());
    image[24..32].copy_from_slice(&abi::USER_BASE.to_le_bytes());
    image[32..40].copy_from_slice(&64u64.to_le_bytes());
    image[54..56].copy_from_slice(&56u16.to_le_bytes());
    image[56..58].copy_from_slice(&1u16.to_le_bytes());
    image[64..68].copy_from_slice(&1u32.to_le_bytes());
    image[68..72].copy_from_slice(&flags.to_le_bytes());
    image[72..80].copy_from_slice(&0x200u64.to_le_bytes());
    image[80..88].copy_from_slice(&vaddr.to_le_bytes());
    image[96..104].copy_from_slice(&file_size.to_le_bytes());
    image[104..112].copy_from_slice(&mem_size.to_le_bytes());
    image
}

fn machine_with_memory() -> (Machine, u64) {
    let mut m = new_machine();
    physical::add_range(&mut m.k.mem, 0x8000_0000, 0x1000);
    let root = mmu::create_table(&mut m).ok().unwrap();
    (m, root)
}

fn load_error(image: &[u8]) -> ElfError {
    let (mut m, root) = machine_with_memory();
    match elf::load(&mut m, root, image) {
        Err(error) => error,
        Ok(_) => panic!("loaded"),
    }
}

#[test]
fn a_program_is_loaded_into_zeroed_pages() {
    let (mut m, root) = machine_with_memory();
    m.ops.clear();
    let image = program(5, abi::USER_BASE, 0x100, 0x1800);
    let loaded = elf::load(&mut m, root, &image).ok().unwrap();
    assert_eq!(loaded.entry, abi::USER_BASE);
    assert_eq!(loaded.segment_count, 1);
    assert_eq!(loaded.segments[0].pages, 2);
    assert!(loaded.segments[0].executable);
    let pa = loaded.segments[0].pa;
    let zeroed = m.ops.iter().position(|op| match op {
        HwOp::Zero { pa: at, bytes } => *at == pa && *bytes == 0x2000,
        _ => false,
    });
    let copied = m.ops.iter().position(|op| match op {
        HwOp::CopyImage { pa: at, from, bytes } => *at == pa && *from == 0x200 && *bytes == 0x100,
        _ => false,
    });
    assert!(zeroed.unwrap() < copied.unwrap());
    assert!(mmu::is_user_executable(&m, root, abi::USER_BASE));
    assert!(!mmu::is_user_writable(&m, root, abi::USER_BASE, 8));
}

#[test]
fn each_fault_of_a_program_has_its_error() {
    let good = program(5, abi::USER_BASE, 0x100, 0x1000);
    assert_eq!(load_error(&good[..63]), ElfError::InvalidImage);
    let mut image = good.clone();
    image[18] = 62;
    assert_eq!(load_error(&image), ElfError::NotAarch64);
    let mut image = good.clone();
    image[54] = 55;
    assert_eq!(load_error(&image), ElfError::HeaderSize);
    let mut image = good.clone();
    image[32..40].copy_from_slice(&u64::MAX.to_le_bytes());
    assert_ne!(load_error(&image), ElfError::InvalidImage);
    let mut image = good.clone();
    image[32..40].copy_from_slice(&0xff0u64.to_le_bytes());
    image[0xff0] = 1;
    assert_eq!(load_error(&image), ElfError::Truncated);
    let mut image = good.clone();
    image[64] = 2;
    assert_eq!(load_error(&image), ElfError::NoSegments);
    assert_eq!(
        load_error(&program(7, abi::USER_BASE, 0x100, 0x1000)),
        ElfError::WritableExecutable
    );
    assert_eq!(
        load_error(&program(5, abi::USER_BASE + 8, 0x100, 0x1000)),
        ElfError::NotPageAligned
    );
    assert_eq!(
        load_error(&program(5, 0xffff_ffff_ffff_f000, 0x100, 0x1000)),
        ElfError::SegmentOverflow
    );
    assert_eq!(
        load_error(&program(5, 0x8000_0000, 0x100, 0x1000)),
        ElfError::OutsideWindow
    );
    assert_eq!(
        load_error(&program(5, abi::USER_BASE, 0xf00, 0x1000)),
        ElfError::TruncatedSegment
    );
    assert_eq!(ElfError::Overlapping.message(), "overlapping PT_LOAD segments");
    let mut m = new_machine();
    physical::add_range(&mut m.k.mem, 0x8000_0000, 1);
    let root = mmu::create_table(&mut m).ok().unwrap();
    assert_eq!(elf::load(&mut m, root, &good).err(), Some(ElfError::NoMemory));
}

#[test]
fn overlapping_segments_are_refused() {
    let mut image = program(5, abi::USER_BASE, 0x100, 0x1000);
    image[56] = 2;
    let header = image[64..120].to_vec();
    image[120..176].copy_from_slice(&header);
    assert_eq!(load_error(&image), ElfError::Overlapping);
}

fn memory_info() -> BootInfo {
    let mut bi = BootInfo::default();
    bi.ranges[0] = BootRange { base: 0x3fff_0000, pages: 0x8000 };
    bi.range_count = 1;
    bi
}

fn here() -> Entry {
    Entry { cpu: 0, now: 0, message: IpcMessage::default(), config: ThreadCreateConfig::default() }
}

#[test]
fn the_kernel_starts_the_task() {
    let mut m = new_machine();
    let image = program(5, abi::USER_BASE, 0x100, 0x1000);
    let start = kmain::el1_main(&mut m, &here(), &memory_info(), &board(""), &image);
    assert_eq!(start, Ok(abi::USER_BASE));
    assert!(m.k.task.active);
    assert_eq!(m.k.threads.slots[0].state, ThreadState::Running);
    assert_eq!(m.k.threads.slots[0].context.elr_el1, abi::USER_BASE);
    assert_eq!(m.k.threads.slots[0].context.x[0], abi::USER_BOOT_INFO_VA);
    // Nothing of the user window was handed out.
    let code = m.k.task.owned[0].pa;
    assert!(code >= abi::USER_WINDOW_END);
    assert_eq!(
        m.k.task.mmio_grants[0],
        MmioGrant { base: 0x0900_0000, size: 0x1000 }
    );
    assert_eq!(m.k.task.irq_grants[0].intid, 33);
    assert_eq!(m.k.task.irq_grant_count, 3);
    // The interrupt controller stays with the kernel.
    assert!(!protect::contains_range(&m.k.protect, 0x0800_0000, 0x1000));
    let told = m.ops.iter().find_map(|op| match op {
        HwOp::WriteBootInfo { info, .. } => Some(*info),
        _ => None,
    });
    let told = told.unwrap();
    assert_eq!(told.magic, abi::USER_BOOT_INFO_MAGIC);
    assert_eq!(told.uart.base, 0x0900_0000);
    assert_eq!(told.uart.intid, 33);
    assert_eq!(told.virtio_mmio.base, 0x0a00_0000);
    assert_eq!(told.xhci_transport, abi::XHCI_TRANSPORT_PCI);
}

#[test]
fn each_reason_not_to_start_is_named() {
    let image = program(5, abi::USER_BASE, 0x100, 0x1000);
    let mut m = new_machine();
    assert_eq!(
        kmain::el1_main(&mut m, &here(), &BootInfo::default(), &board(""), &image),
        Err(BootError::Fault(Fault::NoTableMemory))
    );
    let mut m = new_machine();
    assert_eq!(
        kmain::el1_main(&mut m, &here(), &memory_info(), &[], &image),
        Err(BootError::Platform)
    );
    let mut m = new_machine();
    assert_eq!(
        kmain::el1_main(&mut m, &here(), &memory_info(), &board(""), &[]),
        Err(BootError::Program(ElfError::InvalidImage))
    );
    let mut m = new_machine();
    let mut bi = memory_info();
    bi.fb.base = u64::MAX - 1;
    bi.fb.size = 2;
    assert_eq!(
        kmain::el1_main(&mut m, &here(), &bi, &board(""), &image),
        Err(BootError::Window)
    );
    let mut m = new_machine();
    let mut bi = memory_info();
    bi.ranges[0] = BootRange { base: 0x8000_0000, pages: 100 };
    assert_eq!(
        kmain::el1_main(&mut m, &here(), &bi, &board(""), &image),
        Err(BootError::Memory)
    );
}

#[test]
fn free_memory_is_listed_in_order() {
    let mut bi = BootInfo::default();
    let entries = [
        MemoryEntry { kind: CONVENTIONAL_MEMORY, phys_start: 0x1000, page_count: 2 },
        MemoryEntry { kind: 1, phys_start: 0x8000, page_count: 5 },
        MemoryEntry { kind: CONVENTIONAL_MEMORY, phys_start: 0x10000, page_count: 1 },
    ];
    bi.fill_memmap(&entries, 48);
    assert_eq!(bi.range_count, 2);
    assert_eq!(bi.mem.free_pages, 3);
    assert_eq!(bi.mem.desc_count, 3);
    assert_eq!(bi.take_entry_page(), Some(0x1000));
    assert_eq!(bi.boot_alloc_page(), Some(0x2000));
    assert_eq!(bi.take_entry_page(), None);
    assert_eq!(bi.boot_alloc_page(), Some(0x10000));
    assert_eq!(bi.boot_alloc_page(), None);
    assert_eq!(bi.mem.free_pages, 0);
}

#[test]
fn the_last_table_of_a_kind_counts() {
    let mut bi = BootInfo::default();
    let entries = [
        ConfigEntry { kind: TableKind::Fdt, address: 1 },
        ConfigEntry { kind: TableKind::Acpi2, address: 2 },
        ConfigEntry { kind: TableKind::Other, address: 3 },
        ConfigEntry { kind: TableKind::Fdt, address: 4 },
    ];
    bi.take_tables(&entries);
    assert_eq!(bi.dtb, 4);
    assert_eq!(bi.rsdp, 2);
    bi.take_tables(&[]);
    assert_eq!(bi.dtb, 0);
    bi.read_el2(El2Regs { hcr: 7, ..El2Regs::default() });
    assert_eq!(bi.el2.hcr, 7);
}

#[test]
fn the_early_map_takes_a_table_once() {
    let mut bi = BootInfo::default();
    bi.ranges[0] = BootRange { base: 0, pages: 8 };
    bi.range_count = 1;
    let mut ops = Vec::new();
    let map = early::install_pi5_el1_boot_mmu(&mut bi, &mut ops).unwrap();
    // The root, and one table each for low memory, the image band and the console. Low memory
    // and the band share the first gigabyte; the band reaches into the second.
    assert_eq!(map.root, 0);
    assert_eq!(bi.ranges[0].pages, 8 - 4);
    assert_eq!(map.l1[0], 0x1003);
    assert_eq!(map.l1[1], 0x2003);
    assert_eq!(map.l1[65], 0x3003);
    assert!(ops.iter().any(|op| match op {
        HwOp::Store { pa, word } => *pa == 0x1000 && *word == mmu::MMU_KERNEL | 1,
        _ => false,
    }));
    let mut few = BootInfo::default();
    few.ranges[0] = BootRange { base: 0x1000, pages: 2 };
    few.range_count = 1;
    assert!(early::install_pi5_el1_boot_mmu(&mut few, &mut Vec::new()).is_none());
    assert_eq!(early::exec_lines(0x1004, 0x40), (0x1000, 0x1080));
    // What was asked for before stays in front.
    let mut again = BootInfo::default();
    again.ranges[0] = BootRange { base: 0, pages: 8 };
    again.range_count = 1;
    let mut more = vec![HwOp::Barrier];
    assert!(early::install_pi5_el1_boot_mmu(&mut again, &mut more).is_some());
    assert!(matches!(more[0], HwOp::Barrier));
    assert!(matches!(more[1], HwOp::Zero { pa: 0, bytes: 4096 }));
    assert_eq!(more.len(), ops.len() + 1);
}

#[test]
fn memory_lists_are_whole_pages_in_reach() {
    let mut bi = BootInfo::default();
    bi.ranges[0] = BootRange { base: 0x8000_0000, pages: 16 };
    bi.range_count = 1;
    assert!(kmain::memory_is_sound(&bi));
    bi.ranges[1] = BootRange { base: 0x9000_0800, pages: 1 };
    assert!(kmain::memory_is_sound(&bi));
    bi.range_count = 2;
    assert!(!kmain::memory_is_sound(&bi));
    bi.ranges[1] = BootRange { base: 0xffff_ffff_f000, pages: 1 };
    assert!(kmain::memory_is_sound(&bi));
    bi.ranges[1].pages = 2;
    assert!(!kmain::memory_is_sound(&bi));
}

#[test]
fn entry_registers_have_their_bits() {
    let el1 = registers::enter_el1_kernel(0x0810_0038, 4, 0x1f);
    assert_eq!(el1.hcr, 0x8000_0000);
    assert_eq!(el1.cnthctl, 7);
    assert_eq!(el1.sctlr, 0x05);
    assert_eq!(el1.spsr, 0x3c5);
    let el0 = registers::enter_el0(0, 0x8001);
    assert_eq!(el0.cntkctl, 2);
    assert_eq!(el0.sctlr, 0x0400_0001);
}

#[test]
fn secondary_processors_get_stacks() {
    let mut m = new_machine();
    physical::add_range(&mut m.k.mem, 0x8000_0000, 0x100);
    let cpus = resources::discover_cpus(&board("")).unwrap();
    let tops = smp::boot_secondaries(&mut m, &cpus).unwrap();
    assert_eq!(tops[0], 0);
    for cpu in 1..4 {
        assert_eq!(tops[cpu] % 0x10000, 0);
        assert!(tops[cpu] > 0x8000_0000);
    }
    assert!(smp::start_accepted(0));
    assert!(smp::start_accepted(-4));
    assert!(!smp::start_accepted(-2));
    assert!(smp::start_expired(10, 10, 0));
    assert!(!smp::start_expired(9, 10, 0));
    assert!(smp::start_expired(9, 10, 100_000_000));
    assert!(m.k.mem.ranges[..m.k.mem.count].iter().all(|range| {
        tops[1..].iter().all(|top| *top <= range.base || top - 65536 >= range.base + range.pages * 4096)
    }));
    let cx = Entry { cpu: 1, now: 5, ..here() };
    let next = smp::secondary_entry(&mut m, &cx, 0x1000, 30, false, 1_000_000);
    assert_eq!(next, Dispatch::Wait);
    assert_eq!(smp::online_mask(&m.k.smp), 3);
    assert!(smp::all_online(&m.k.smp, 2));
    let mut few = new_machine();
    physical::add_range(&mut few.k.mem, 0x8000_0000, 0x20);
    assert!(smp::boot_secondaries(&mut few, &cpus).is_none());
}

/// A tree with one virtio transport; `odd` says what is unusual about it.
fn odd_tree(odd: &str) -> Vec<u8> {
    let mut t = Tree::new();
    t.begin(if odd == "root" { "foo" } else { "" });
    if odd == "root" {
        t.word(4);
    }
    t.cells("#address-cells", &[2]);
    t.cells("#size-cells", if odd == "cells" { &[] } else { &[2] });
    t.begin("virtio_mmio@a000000");
    t.text("compatible", "virtio,mmio");
    t.cells("reg", &[0, 0x0a00_0000, 0, 0x200]);
    if odd == "padding" {
        t.word(4);
        t.text("status", "okay");
    }
    t.end();
    if odd == "name" {
        t.begin("g\u{e9}n\u{e9}ral");
        t.end();
    }
    if odd == "broken" {
        t.word(1);
        t.word(0xff00_0000);
        t.end();
    }
    if odd == "other" {
        t.begin("other");
        t.cells("#size-cells", &[]);
        t.end();
    }
    if odd == "ends" {
        t.end();
        t.end();
    }
    t.end();
    let mut blob = t.finish();
    if odd == "cut" {
        // The structure block ends before its last token.
        let len = u32::from_be_bytes([blob[36], blob[37], blob[38], blob[39]]) - 4;
        blob[36..40].copy_from_slice(&len.to_be_bytes());
    }
    blob
}

#[test]
fn odd_trees_are_searched_where_they_can_be() {
    let window = Some(RegRange { base: 0x0a00_0000, size: 0x1000 });
    for odd in ["", "padding", "name", "cut", "root", "other"] {
        assert!(tree::can_list(&odd_tree(odd)));
        assert!(tree::can_search(&odd_tree(odd), "nobody"));
        assert_eq!(resources::discover_virtio_mmio_window(&odd_tree(odd)), window);
    }
    // Where a search would not come back there is none. What lies behind the node that is looked
    // for does not matter.
    for odd in ["broken", "ends"] {
        assert!(tree::can_search(&odd_tree(odd), "virtio,mmio"));
        assert!(!tree::can_search(&odd_tree(odd), "nobody"));
        assert!(!tree::can_list(&odd_tree(odd)));
        assert_eq!(resources::discover_virtio_mmio_window(&odd_tree(odd)), None);
        assert!(pci::from_dtb(&odd_tree(odd)).is_none());
    }
    // A cell count without a cell matters only where it is read.
    assert!(tree::can_list(&odd_tree("cells")));
    assert!(tree::can_measure(&odd_tree("cells"), 0));
    assert!(!tree::can_measure(&odd_tree("cells"), 1));
    assert!(!tree::can_measure(&odd_tree(""), 2));
    assert_eq!(resources::discover_virtio_mmio_window(&odd_tree("cells")), None);
    assert!(tree::can_navigate(&odd_tree("cells"), "/psci", "method"));
    assert!(resources::discover_cpus(&odd_tree("cells")).is_none());
}

#[test]
fn a_fault_behind_the_host_does_not_hide_it() {
    let host = pci::from_dtb(&board("")).unwrap();
    let found = pci::from_dtb(&board("behind")).unwrap();
    assert_eq!(found.ecam_pa, host.ecam_pa);
    assert_eq!(found.intx_route_count, host.intx_route_count);
    assert!(!tree::can_list(&board("behind")));
    // The handle is looked for up to the node that has it.
    assert!(tree::can_reach(&board("behind"), 0x8001));
    assert!(!tree::can_reach(&board("behind"), 0x8002));
}

#[test]
fn paths_are_followed_where_they_can_be() {
    // A root that has a name is skipped, and padding in it stands in the way.
    assert!(!tree::can_navigate(&odd_tree("root"), "/psci", "method"));
    assert!(resources::discover_cpus(&odd_tree("root")).is_none());
    // A node before the one that is looked for is skipped; padding among its properties stands
    // in the way. In the node itself it does no harm.
    assert!(!tree::can_navigate(&odd_tree("padding"), "/psci", "method"));
    assert!(tree::can_navigate(&odd_tree("padding"), "/virtio_mmio", "status"));
    assert!(tree::can_explore(&odd_tree("padding"), "/virtio_mmio"));
    assert!(!tree::can_explore(&odd_tree("padding"), "/psci"));
    // A broken node behind the one that is looked for is never met.
    assert!(tree::can_navigate(&odd_tree("broken"), "/virtio_mmio", "reg"));
    // A name that is no text ends the search for another one without harm.
    assert!(tree::can_navigate(&odd_tree("broken"), "/psci", "method"));
    assert!(resources::discover_cpus(&odd_tree("broken")).is_none());
    assert!(tree::can_navigate(&odd_tree("name"), "/psci", "method"));
    assert!(tree::can_navigate(&odd_tree("cut"), "/psci", "method"));
    assert!(resources::discover_cpus(&odd_tree("name")).is_none());
    let mut named = Tree::new();
    named.begin("foo");
    named.begin("psci");
    named.end();
    named.end();
    let blob = named.finish();
    assert!(tree::can_navigate(&blob, "/psci", "method"));
    assert!(resources::discover_cpus(&blob).is_none());
}

/// A tree with aliases, one of them called like a path; with the node of that path or without.
fn aliased(with_node: bool) -> Vec<u8> {
    let mut t = Tree::new();
    t.begin("");
    t.text("/psci", "/elsewhere");
    t.begin("aliases");
    t.text("/psci", "/elsewhere");
    t.end();
    if with_node {
        t.begin("psci");
        t.text("method", "smc");
        t.end();
    }
    t.end();
    t.finish()
}

#[test]
fn aliases_count_only_for_paths_that_are_missing() {
    assert!(tree::can_navigate(&aliased(true), "/psci", "method"));
    assert!(tree::can_navigate(&aliased(false), "/psci", "method"));
    assert!(tree::can_navigate(&aliased(false), "/cpus", "reg"));
    assert!(resources::discover_cpus(&aliased(false)).is_none());
    // An alias of an alias leads to the node.
    let cpus = resources::discover_cpus(&board("alias")).unwrap();
    assert_eq!(cpus.count, 4);
}

#[test]
fn aliases_that_lead_in_circles_are_not_followed() {
    let mut t = Tree::new();
    t.begin("");
    t.begin("aliases");
    t.text("/psci", "there");
    t.text("there", "/psci");
    t.text("/cpus", "/cpus/");
    t.end();
    t.end();
    let blob = t.finish();
    assert!(!tree::can_navigate(&blob, "/psci", "method"));
    assert!(resources::discover_cpus(&blob).is_none());
    assert!(tree::can_navigate(&blob, "/cpus", "reg"));
    assert!(tree::can_navigate(&blob, "/aliases", "there"));
    assert!(tree::can_explore(&blob, "/"));
}

#[test]
fn a_new_machine_is_empty() {
    let m = new_machine();
    assert!(m.k.frames.iter().all(|f| f.owner == 0 && f.generation == 1 && f.pages == 0));
    assert!(m.k.spaces.spaces.iter().all(|s| !s.active && s.generation == 1));
    assert!(m.k.spaces.mappings.iter().all(|p| p.owner == 0 && p.rights == 0));
    assert!(m.k.spaces.current.iter().all(|handle| *handle == 0));
    assert!(m.k.ipc.endpoints.iter().all(|e| e.owner == 0 && e.generation == 1));
    assert!(m.k.ipc.notifications.iter().all(|n| n.owner == 0 && n.generation == 1));
    assert!(m.k.ipc.replies.iter().all(|r| r.owner == 0 && r.generation == 1));
    assert!(m.k.sched.cpus.iter().all(|c| c.ready_bitmap == 0 && !c.initialized));
    assert_eq!(m.k.sched.ready_sequence, 1);
    assert!(m.k.threads.slots.iter().all(|t| t.state == ThreadState::Free && t.owner == 0));
    assert!(m.k.threads.current.iter().all(|slot| *slot == 0xff));
    assert_eq!((m.k.mem.count, m.k.spaces.device_count), (0, 0));
}

#[test]
fn booting_makes_no_frame_and_no_mapping() {
    let mut m = new_machine();
    let image = program(5, abi::USER_BASE, 0x100, 0x1000);
    let mut bi = memory_info();
    // A display without memory does not matter, wherever it would be.
    bi.fb.base = u64::MAX - 1;
    bi.fb.size = 0;
    let start = kmain::el1_main(&mut m, &here(), &bi, &board(""), &image);
    assert_eq!(start, Ok(abi::USER_BASE));
    assert!(m.k.frames.iter().all(|f| f.owner == 0));
    assert!(m.k.spaces.mappings.iter().all(|p| p.owner == 0));
    assert!(m.k.spaces.spaces[0].active && !m.k.spaces.spaces[1].active);
    // What the task holds is no longer free, and held once.
    let task = &m.k.task;
    let mut runs = vec![
        (task.owned[0].pa, task.owned[0].pages),
        (task.stack_pa, 16),
        (task.heap_pa, 1024),
        (task.boot_info_pa, 1),
        (m.k.threads.slots[0].ipc_pa, 1),
    ];
    runs.extend(m.k.mem.ranges[..m.k.mem.count].iter().map(|r| (r.base, r.pages)));
    runs.extend(m.tables.iter().map(|table| (table.root, 1)));
    runs.sort();
    assert!(runs.windows(2).all(|pair| pair[0].0 + pair[0].1 * 4096 <= pair[1].0));
}
