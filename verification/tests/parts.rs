use exokernel::handle::{decode_handle, make_handle, next_generation};
use exokernel::hw::HwOp;
use exokernel::interrupt::gic::{self, Gic};
use exokernel::machine::new_machine;
use exokernel::memory::mmu::{self, MapError};
use exokernel::memory::physical;
use exokernel::object::ipc::WaitQueue;
use exokernel::resource::protect;
use exokernel::scheduler::timer::{self, Timer};
use exokernel::uart::{self, Uart};
use exokernel::util::{is_power_of_two, next_power_of_two};

#[test]
fn handles_name_slot_and_generation() {
    let handle = make_handle(5, 7);
    assert_eq!(handle, 0x7_0000_0006);
    assert_eq!(decode_handle(handle, 6), Some((5, 7)));
    assert_eq!(decode_handle(handle, 5), None);
    assert_eq!(decode_handle(0x7_0000_0000, 6), None);
    assert_eq!(decode_handle(6, 6), None);
    assert_eq!(next_generation(1), 2);
    assert_eq!(next_generation(0x7fff_ffff), 1);
}

#[test]
fn powers_of_two_are_recognized() {
    assert!(is_power_of_two(1));
    assert!(is_power_of_two(0x8000_0000_0000_0000));
    assert!(!is_power_of_two(0));
    assert!(!is_power_of_two(6));
    assert_eq!(next_power_of_two(5), 8);
    assert_eq!(next_power_of_two(8), 8);
}

#[test]
fn pages_are_cut_from_the_front_of_a_range() {
    let mut mem = physical::empty_memory();
    physical::add_range(&mut mem, 0x10000, 4);
    assert_eq!(physical::alloc_page(&mut mem), Some(0x10000));
    assert_eq!(physical::alloc_pages(&mut mem, 2), Some(0x11000));
    assert_eq!(physical::alloc_pages(&mut mem, 2), None);
    assert_eq!(physical::free_pages_total(&mem), 1);
    assert!(physical::free_pages(&mut mem, 0x11000, 2).is_ok());
    // What touches is one range again.
    assert_eq!(mem.count, 1);
    assert!(physical::free_page(&mut mem, 0x10000).is_ok());
    assert_eq!(mem.count, 1);
    assert_eq!(physical::free_pages_total(&mem), 4);
    assert_eq!(physical::alloc_pages(&mut mem, 4), Some(0x10000));
}

#[test]
fn aligned_pages_keep_what_stands_before_them() {
    let mut mem = physical::empty_memory();
    physical::add_range(&mut mem, 0x1000, 32);
    assert_eq!(physical::alloc_pages_aligned(&mut mem, 4, 16), Some(0x10000));
    assert_eq!(physical::free_pages_total(&mem), 28);
    assert_eq!(physical::alloc_pages(&mut mem, 15), Some(0x1000));
}

#[test]
fn pages_are_mapped_and_unmapped() {
    let mut m = new_machine();
    physical::add_range(&mut m.k.mem, 0x8000_0000, 0x100);
    let root = mmu::create_table(&mut m).ok().unwrap();
    let va = 0x4000_0000u64;
    assert!(mmu::map_checked(&mut m, root, va, 0x9000_0000, mmu::MMU_USER_RW, 3).is_ok());
    assert_eq!(mmu::mapped_pa(&m, root, va + 0x2000), Some(0x9000_2000));
    assert_eq!(mmu::mapped_pa(&m, root, va + 0x3000), None);
    assert!(mmu::range_matches(&m, root, va, 0x9000_0000, 3));
    assert!(!mmu::range_matches(&m, root, va, 0x9000_1000, 3));
    assert_eq!(
        mmu::map_checked(&mut m, root, va + 0x2000, 0xa000_0000, mmu::MMU_USER_RW, 2),
        Err(MapError::Conflict)
    );
    // What the failed call had mapped is gone.
    assert!(mmu::range_unmapped(&m, root, va + 0x3000, 1));
    assert!(!mmu::unmap_matching(&mut m, root, va, 0x9000_1000, 3));
    assert_eq!(mmu::unmap(&mut m, root, va, 4), 3);
    assert!(mmu::range_unmapped(&m, root, va, 4));
    assert!(mmu::try_map_block_2m(&mut m, root, 0x8000_0000, 0x8000_0000, mmu::MMU_KERNEL));
    let mut poor = new_machine();
    physical::add_range(&mut poor.k.mem, 0x8000_0000, 2);
    let root = mmu::create_table(&mut poor).ok().unwrap();
    assert_eq!(
        mmu::map_checked(&mut poor, root, va, 0x9000_0000, mmu::MMU_USER_RW, 1),
        Err(MapError::NoMemory)
    );
}

#[test]
fn user_rights_are_told_apart() {
    let mut m = new_machine();
    physical::add_range(&mut m.k.mem, 0x8000_0000, 0x100);
    let root = mmu::create_table(&mut m).ok().unwrap();
    let va = 0x4000_0000u64;
    for (i, flags) in [mmu::MMU_USER_RX, mmu::MMU_USER_RW, mmu::MMU_USER_RO, mmu::MMU_KERNEL]
        .iter()
        .enumerate()
    {
        let page = va + i as u64 * 0x1000;
        assert!(mmu::map(&mut m, root, page, 0x9000_0000, *flags, 1).is_ok());
    }
    let executable = [true, false, false, false];
    let readable = [true, true, true, false];
    let writable = [false, true, false, false];
    for i in 0..4 {
        let page = va + i as u64 * 0x1000;
        assert_eq!(mmu::is_user_executable(&m, root, page), executable[i]);
        assert_eq!(mmu::is_user_readable(&m, root, page, 8), readable[i]);
        assert_eq!(mmu::is_user_writable(&m, root, page, 8), writable[i]);
    }
    // A range is readable only if all of it is.
    assert!(mmu::is_user_readable(&m, root, va + 0x1ff8, 16));
    assert!(!mmu::is_user_readable(&m, root, va + 0x2ff8, 16));
    assert!(!mmu::is_user_readable(&m, root, u64::MAX, 16));
}

#[test]
fn windows_are_admitted_unless_denied() {
    let mut table = protect::empty_protect_table();
    protect::register(&mut table, 0x1000, 0x3000);
    assert!(protect::contains_range(&table, 0x2000, 0x2000));
    assert!(!protect::contains_range(&table, 0x2000, 0x2001));
    assert!(!protect::contains_range(&table, 0x2000, 0));
    protect::deny(&mut table, 0x2800, 0x100);
    assert!(!protect::contains_range(&table, 0x2000, 0x2000));
    assert!(protect::contains_range(&table, 0x1000, 0x1000));
    assert!(!protect::contains_range(&table, u64::MAX, 2));
}

#[test]
fn a_wait_queue_is_served_in_order() {
    let mut queue = WaitQueue { slots: [0; 16], count: 0 };
    for slot in [3, 5, 9] {
        assert!(queue.push(slot));
    }
    assert!(!queue.push(5));
    queue.remove(5);
    assert_eq!(queue.pop(), Some(3));
    assert_eq!(queue.pop(), Some(9));
    assert_eq!(queue.pop(), None);
}

#[test]
fn interrupts_are_enabled_by_their_bit() {
    let mut controller = Gic { dist_base: 0, cpu_base: 0 };
    let mut ops = Vec::new();
    gic::enable_spi(&controller, &mut ops, 40);
    assert_eq!(ops.len(), 0);
    assert_eq!(gic::acknowledge(&controller, 40), None);
    gic::init(&mut controller, &mut ops, 0x1000, 0x2000);
    ops.clear();
    gic::enable_spi(&controller, &mut ops, 40);
    assert!(matches!(ops[0], HwOp::DistWrite { offset: 0x104, value: 0x100 }));
    ops.clear();
    gic::disable_spi(&controller, &mut ops, 40);
    assert!(matches!(ops[0], HwOp::DistWrite { offset: 0x184, value: 0x100 }));
    // Private lines are not shared ones.
    ops.clear();
    gic::enable_spi(&controller, &mut ops, 30);
    assert_eq!(ops.len(), 0);
    assert_eq!(gic::acknowledge(&controller, 40), Some(40));
    assert_eq!(gic::acknowledge(&controller, 1023), None);
    assert_eq!(gic::intid(0x428), 0x28);
}

#[test]
fn a_slice_is_a_millisecond() {
    let mut t = Timer { intid: 0, ticks_per_slice: 0, use_virtual: false };
    let controller = Gic { dist_base: 0x1000, cpu_base: 0x2000 };
    let mut ops = Vec::new();
    assert!(!timer::init(&mut t, &controller, &mut ops, 33, false, 62_500_000));
    assert!(!timer::init(&mut t, &controller, &mut ops, 30, false, 0));
    assert!(timer::init(&mut t, &controller, &mut ops, 30, false, 62_500_000));
    assert_eq!(t.ticks_per_slice, 62_500);
    assert!(timer::is_timer_irq(&t, 30));
    assert!(!timer::is_timer_irq(&t, 27));
    ops.clear();
    assert_eq!(timer::arm_full(&t, &mut ops, 99), 99);
    assert!(matches!(ops[0], HwOp::ArmTimer { use_virtual: false, ticks: 62_500 }));
}

#[test]
fn numbers_are_printed_in_hexadecimal() {
    assert_eq!(uart::hex(0), b"0x0000000000000000");
    assert_eq!(uart::hex(0x12ab), b"0x00000000000012ab");
    assert_eq!(uart::puts(b"a\n"), b"a\r\n");
    let mut console = Uart { base: 0 };
    assert!(!uart::is_ready(&console));
    uart::init(&mut console, 0x0900_0000);
    assert!(uart::is_ready(&console));
    assert_eq!(uart::base(&console), 0x0900_0000);
    assert!(uart::is_full(0x20));
    assert!(!uart::is_full(0x10));
}

#[test]
fn a_page_joins_both_of_its_neighbours() {
    let mut mem = physical::empty_memory();
    physical::init_from_ranges(&mut mem, &[(0x1000, 1), (0x3000, 1)]);
    assert_eq!(physical::alloc_pages(&mut mem, 2), None);
    assert_eq!(physical::free_page(&mut mem, 0x2000), Ok(()));
    assert_eq!(mem.count, 1);
    assert_eq!(physical::free_pages_total(&mem), 3);
    assert_eq!(physical::alloc_pages(&mut mem, 3), Some(0x1000));
}

#[test]
fn a_run_joins_all_that_it_touches() {
    let mut mem = physical::empty_memory();
    physical::init_from_ranges(&mut mem, &[(0x9000, 1), (0x1000, 1), (0x5000, 1), (0x7000, 1)]);
    assert_eq!(physical::free_pages(&mut mem, 0x2000, 3), Ok(()));
    assert_eq!(mem.count, 3);
    assert_eq!(physical::free_page(&mut mem, 0x8000), Ok(()));
    assert_eq!(physical::free_page(&mut mem, 0x6000), Ok(()));
    assert_eq!(mem.count, 1);
    assert_eq!(physical::alloc_pages(&mut mem, 9), Some(0x1000));
}

#[test]
fn acknowledged_tokens_are_whole() {
    let mut controller = Gic { dist_base: 0, cpu_base: 0 };
    let mut ops = Vec::new();
    gic::init(&mut controller, &mut ops, 0x1000, 0x2000);
    assert_eq!(gic::acknowledge(&controller, 0x400), Some(0x400));
    assert_eq!(gic::acknowledge(&controller, 0xc02), Some(0xc02));
    assert_eq!(gic::acknowledge(&controller, 1019), Some(1019));
    for special in 1020..1024 {
        assert_eq!(gic::acknowledge(&controller, special), None);
        assert_eq!(gic::acknowledge(&controller, 0x400 | special), None);
    }
}

#[test]
fn taking_pages_keeps_ranges_apart() {
    let mut mem = physical::empty_memory();
    physical::init_from_ranges(&mut mem, &[(0x1000, 3), (0x8000, 8)]);
    assert_eq!(physical::alloc_page(&mut mem), Some(0x1000));
    assert_eq!(physical::alloc_pages_aligned(&mut mem, 2, 4), Some(0x8000));
    assert_eq!(physical::alloc_pages_aligned(&mut mem, 1, 4), Some(0xc000));
    assert_eq!(mem.count, 3);
    for i in 0..mem.count {
        for j in 0..i {
            let (a, b) = (mem.ranges[i], mem.ranges[j]);
            assert!(a.base + a.pages * 4096 < b.base || b.base + b.pages * 4096 < a.base);
        }
    }
    assert_eq!(physical::free_page(&mut mem, 0xc000), Ok(()));
    assert_eq!(mem.count, 2);
}

#[test]
fn unmapping_counts_what_was_mapped() {
    let mut m = new_machine();
    physical::add_range(&mut m.k.mem, 0x8000_0000, 0x100);
    let root = mmu::try_create_table(&mut m).unwrap();
    let va = 0x4000_0000u64;
    assert!(mmu::map(&mut m, root, va, 0x1000, mmu::MMU_USER_RW, 2).is_ok());
    assert!(mmu::map(&mut m, root, va + 0x5000, 0x9000, mmu::MMU_USER_RW, 1).is_ok());
    let free = physical::free_pages_total(&m.k.mem);
    // Two pages, a hole of three, and one more; beyond, nothing.
    assert_eq!(mmu::unmap(&mut m, root, va + 0x1000, 6), 2);
    assert_eq!(mmu::mapped_pa(&m, root, va), Some(0x1000));
    assert_eq!(mmu::mapped_pa(&m, root, va + 0x1000), None);
    assert_eq!(mmu::mapped_pa(&m, root, va + 0x5000), None);
    assert_eq!(physical::free_pages_total(&m.k.mem), free);
}
