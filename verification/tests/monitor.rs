use exokernel::bringup::gic::{self, MonitorGic};
use exokernel::bringup::protect::{self, Regions};
use exokernel::bringup::task::{self, MonitorTask};
use exokernel::bringup::trap::{self, Outcome};
use exokernel::bringup::dtb;
use exokernel::hw::HwOp;
use exokernel::interrupt::gic::Gic;
use exokernel::machine::{new_machine, Machine};
use exokernel::memory::{mmu, physical};
use exokernel::object::task::UserMapping;

const SVC: u64 = 0x15 << 26;

fn no_task() -> MonitorTask {
    MonitorTask {
        active: false,
        code_pa: 0,
        code_pages: 0,
        stack_pa: 0,
        dtb_pages: 0,
        mmio: [UserMapping { va: 0, pages: 0 }; 16],
        mmio_count: 0,
        irqs: [0; 16],
        irq_count: 0,
        active_iar: 0,
    }
}

fn ready_gic(ops: &mut Vec<HwOp>) -> MonitorGic {
    let mut g = MonitorGic { gic: Gic { dist_base: 0, cpu_base: 0 }, uart_intid: 0 };
    gic::init(&mut g, ops, 0x0800_0000, 0x0801_0000);
    gic::authorize_uart_irq(&mut g, 33);
    ops.clear();
    g
}

/// A machine with a table and one device window.
fn machine() -> (Machine, Regions, u64) {
    let mut m = new_machine();
    physical::add_range(&mut m.k.mem, 0x8000_0000, 0x100);
    let root = mmu::create_table(&mut m).ok().unwrap();
    let mut regions = protect::no_regions();
    protect::register(&mut regions, 0x0900_0000, 0x200);
    (m, regions, root)
}

#[test]
fn a_registered_window_is_found() {
    let (_, regions, _) = machine();
    assert!(protect::lookup(&regions, 0x0900_01ff).is_some());
    assert!(protect::lookup(&regions, 0x0900_0200).is_none());
    assert!(protect::contains_range(&regions, 0x0900_0000, 0x200));
    assert!(!protect::contains_range(&regions, 0x0900_0000, 0x201));
    assert!(protect::lookup(&protect::no_regions(), 0).is_none());
}

#[test]
fn a_window_is_mapped_for_the_task() {
    let (mut m, regions, root) = machine();
    let map = |m: &mut Machine, pa: u64, size: u64, va: u64| {
        trap::handle_svc(m, &regions, trap::SYS_MAP_MMIO, pa, size, va)
    };
    // No table is in use yet.
    assert_eq!(map(&mut m, 0x0900_0000, 0x200, 0x4040_0000), Outcome::Value(3));
    mmu::activate(&mut m, root);
    assert_eq!(map(&mut m, 0x0900_0000, 0, 0x4040_0000), Outcome::Value(1));
    assert_eq!(map(&mut m, 0x0900_0100, 0x200, 0x4040_0000), Outcome::Value(1));
    assert_eq!(map(&mut m, 0x0900_0000, 0x200, 0x4040_0001), Outcome::Value(1));
    assert_eq!(map(&mut m, 0x0a00_0000, 0x200, 0x4040_0000), Outcome::Value(2));
    assert_eq!(map(&mut m, 0x0900_0000, 0x200, 0x4040_0000), Outcome::Value(0));
    assert_eq!(mmu::mapped_pa(&m, root, 0x4040_0000), Some(0x0900_0000));
    // The last page of the address space can be mapped; nothing lies behind it.
    let last = 0xffff_ffff_ffff_f000;
    assert_eq!(map(&mut m, 0x0900_0000, 0x200, last), Outcome::Value(0));
    assert_eq!(map(&mut m, 0x0900_0000, 0x1001, last), Outcome::Value(1));
    // Where it may not be mapped anyway, that is the answer.
    assert_eq!(map(&mut m, 0x0a00_0000, 0x1001, last), Outcome::Value(2));
    m.k.active_table = 0;
    assert_eq!(map(&mut m, 0x0900_0000, 0x1001, last), Outcome::Value(3));
}

#[test]
fn the_way_down_sets_these_registers() {
    let el1 = trap::enter_el1_kernel(0x8800_0038, 0x1f, 0x1000, 0x2000, 0x3000, 0x4000);
    assert_eq!(el1.hcr_el2, 0x8000_0038);
    assert_eq!(el1.sctlr_el1, 0x05);
    assert_eq!((el1.elr_el2, el1.spsr_el2), (0x1000, 0x3c5));
    assert_eq!((el1.sp_el1, el1.sp_el0), (0x2000, 0x2000));
    assert_eq!((el1.x0, el1.x1), (0x3000, 0x4000));
    let el0 = trap::enter_el0(0x5000, 0x6000, 7);
    assert_eq!((el0.elr_el1, el0.spsr_el1, el0.sp_el0, el0.x0), (0x5000, 0, 0x6000, 7));
}

#[test]
fn system_calls_of_the_monitor() {
    let (mut m, regions, _) = machine();
    assert_eq!(trap::handle_svc(&mut m, &regions, trap::SYS_PUTC, 0x141, 0, 0), Outcome::Put(0x41));
    m.ops.clear();
    assert_eq!(trap::handle_svc(&mut m, &regions, trap::SYS_PUTS, 0x1000, 5, 0), Outcome::Value(0));
    assert!(matches!(m.ops[0], HwOp::PutUser { va: 0x1000, len: 5 }));
    assert_eq!(trap::handle_svc(&mut m, &regions, trap::SYS_EXIT, 7, 0, 0), Outcome::Exit(7));
    assert_eq!(trap::handle_svc(&mut m, &regions, 99, 0, 0, 0), Outcome::Value(u64::MAX));
    // The number is the last argument of the handler.
    assert_eq!(
        trap::el1_sync_handler(&mut m, &regions, SVC, 7, 0, 0, trap::SYS_EXIT),
        Outcome::Exit(7)
    );
    assert_eq!(
        trap::el1_sync_handler(&mut m, &regions, 0x24 << 26, 7, 0, 0, trap::SYS_EXIT),
        Outcome::Stop
    );
    assert_eq!(trap::resume_pc(0x1000), 0x1004);
}

#[test]
fn only_the_console_interrupt_is_bound() {
    let mut ops = Vec::new();
    let g = ready_gic(&mut ops);
    let mut t = no_task();
    assert!(!task::bind_irq(&mut t, 33));
    task::install(&mut t, 0x8000_0000, 1, 0x8000_1000, 1);
    assert!(task::can_bind_irq(&t, &g, 33));
    assert!(!task::can_bind_irq(&t, &g, 34));
    assert!(task::bind_irq(&mut t, 33));
    assert!(!task::bind_irq(&mut t, 33));
    assert!(task::has_binding(&t, 33));
    assert_eq!(task::first_bound_intid(&t), Some(33));
    task::enable_bound_irqs(&t, &g, &mut ops);
    assert!(matches!(ops[0], HwOp::DistWrite { offset: 0x104, value: 2 }));
    ops.clear();
    assert!(task::unbind_irq(&mut t, &g, &mut ops, 33));
    assert!(!task::unbind_irq(&mut t, &g, &mut ops, 33));
    assert_eq!(task::first_bound_intid(&t), None);
}

#[test]
fn an_active_interrupt_is_acknowledged_once() {
    let mut ops = Vec::new();
    let g = ready_gic(&mut ops);
    let mut t = no_task();
    task::install(&mut t, 0x8000_0000, 1, 0x8000_1000, 1);
    assert!(!task::has_active_iar(&t));
    assert!(!task::ack_irq(&mut t, &g, &mut ops, 33));
    task::record_iar(&mut t, 0x421);
    assert_eq!(task::active_iar(&t), 0x421);
    assert!(!task::ack_irq(&mut t, &g, &mut ops, 34));
    assert_eq!(ops.len(), 0);
    assert!(task::ack_irq(&mut t, &g, &mut ops, 33));
    assert!(matches!(ops[0], HwOp::CpuWrite { offset: 0x10, value: 0x421 }));
    assert!(!task::ack_irq(&mut t, &g, &mut ops, 33));
}

#[test]
fn the_end_of_the_monitor_task_gives_memory_back() {
    let (mut m, _, root) = machine();
    mmu::activate(&mut m, root);
    let code = physical::alloc_pages(&mut m.k.mem, 2).unwrap();
    let stack = physical::alloc_pages(&mut m.k.mem, task::USER_STACK_PAGES).unwrap();
    assert!(mmu::map(&mut m, root, task::USER_BASE, code, mmu::MMU_USER_RX, 2).is_ok());
    let free = physical::free_pages_total(&m.k.mem);
    let mut ops = Vec::new();
    let g = ready_gic(&mut ops);
    let mut t = no_task();
    assert_eq!(task::exit_current(&mut m, &mut t, &g), Ok(false));
    task::install(&mut t, code, 2, stack, 1);
    assert!(task::can_record_mmio(&t));
    task::record_mmio(&mut t, 0x4040_0000, 1);
    assert_eq!(t.mmio_count, 1);
    assert_eq!(task::exit_current(&mut m, &mut t, &g), Ok(true));
    assert!(!t.active);
    assert!(mmu::range_unmapped(&m, root, task::USER_BASE, 2));
    assert_eq!(physical::free_pages_total(&m.k.mem), free + 2 + task::USER_STACK_PAGES);
}

/// A device tree with one console node, whose addresses have one cell each.
fn flat_tree() -> Vec<u8> {
    let mut words: Vec<u8> = Vec::new();
    let word = |words: &mut Vec<u8>, value: u32| words.extend_from_slice(&value.to_be_bytes());
    let names = b"#address-cells\0#size-cells\0compatible\0reg\0";
    word(&mut words, 1);
    word(&mut words, 0);
    word(&mut words, 1);
    words.extend_from_slice(b"uart\0\0\0\0");
    for (name, value) in [(0u32, 1u32), (15, 1)] {
        word(&mut words, 3);
        word(&mut words, 4);
        word(&mut words, name);
        word(&mut words, value);
    }
    word(&mut words, 3);
    word(&mut words, 10);
    word(&mut words, 27);
    words.extend_from_slice(b"arm,pl011\0\0\0");
    word(&mut words, 3);
    word(&mut words, 8);
    word(&mut words, 38);
    word(&mut words, 0x0900_0000);
    word(&mut words, 0x1000);
    word(&mut words, 2);
    word(&mut words, 2);
    word(&mut words, 9);
    let strings = 40 + words.len() as u32;
    let total = strings + names.len() as u32;
    let mut blob = Vec::new();
    for value in [
        0xd00d_feed,
        total,
        40,
        strings,
        40,
        17,
        16,
        0,
        names.len() as u32,
        words.len() as u32,
    ] {
        word(&mut blob, value);
    }
    blob.extend_from_slice(&words);
    blob.extend_from_slice(names);
    blob
}

#[test]
fn the_monitor_reads_addresses_as_they_stand() {
    let blob = flat_tree();
    assert_eq!(dtb::total_size(&blob), Some(blob.len() as u64));
    let reg = dtb::find_pl011_reg(&blob).unwrap();
    assert_eq!((reg.base, reg.size), (0x0900_0000, 0x1000));
    let mut regions = protect::no_regions();
    dtb::parse(&blob, &mut regions);
    assert!(protect::lookup(&regions, 0x0900_0000).is_some());
    assert_eq!(dtb::total_size(&[0; 40]), None);
    assert!(dtb::find_pl011_reg(&[0; 40]).is_none());
}
