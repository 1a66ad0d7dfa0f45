use exokernel::abi;
use exokernel::abi::{IpcMessage, ReplyHandle, ThreadCreateConfig};
use exokernel::hw::HwOp;
use exokernel::interrupt::gic;
use exokernel::machine::{new_machine, Dispatch, Entry, Fault, Machine};
use exokernel::memory::{frame, mmu, physical, vspace};
use exokernel::object::ipc::Reply;
use exokernel::object::task::{IrqGrant, MmioGrant, OwnedPages};
use exokernel::object::thread::ThreadState;
use exokernel::object::{ipc, task, thread};
use exokernel::resource::protect;
use exokernel::scheduler::priority;
use exokernel::syscall::dispatch::{
    class_of, el1_irq_handler_frame, el1_sync_handler_frame, el2_sync_handler, handle_svc_frame,
    TrapFrame,
};

const CODE_VA: u64 = 0x4000_0000;

const LINE: u32 = 33;

fn entry_on(cpu: usize, now: u64) -> Entry {
    Entry { cpu, now, message: IpcMessage::default(), config: ThreadCreateConfig::default() }
}

/// The registers of a thread in the task's code.
fn user_frame() -> TrapFrame {
    let mut frame = TrapFrame::zero();
    frame.elr_el1 = CODE_VA + 4;
    frame
}

fn message(label: u64) -> IpcMessage {
    IpcMessage { label, words: [label, 2, 3, 4], reply: ReplyHandle(0) }
}

/// A machine with two processors, one task and its first thread, which runs on the first.
fn booted() -> Machine {
    let mut m = new_machine();
    physical::add_range(&mut m.k.mem, 0x8000_0000, 0x4000);
    let root = mmu::create_table(&mut m).ok().unwrap();
    mmu::activate(&mut m, root);
    m.k.smp.cpu_count = 2;
    m.k.smp.online_mask = 3;
    gic::init(&mut m.k.gic, &mut m.ops, 0x0800_0000, 0x0801_0000);
    vspace::initialize(&mut m.k.spaces, root, 0x0900_0000, 0x0800_0000, 0x0801_0000);
    let code = physical::alloc_pages(&mut m.k.mem, 1).unwrap();
    assert!(mmu::map(&mut m, root, CODE_VA, code, mmu::MMU_USER_RX, 1).is_ok());
    let stack = physical::alloc_pages(&mut m.k.mem, 16).unwrap();
    let info = physical::alloc_pages(&mut m.k.mem, 1).unwrap();
    let heap = physical::alloc_pages(&mut m.k.mem, 1024).unwrap();
    let segments = [OwnedPages { va: CODE_VA, pa: code, pages: 1, executable: true }];
    let mmio = [MmioGrant { base: 0x0900_0000, size: 0x1000 }];
    let irqs = [IrqGrant { intid: LINE, flags: 4 }];
    protect::register(&mut m.k.protect, 0x0900_0000, 0x1000);
    protect::register(&mut m.k.protect, 0x0a00_0000, 0x1000);
    task::install(&mut m.k.task, &segments, stack, info, heap, &mmio, &irqs);
    let ipc_pa = physical::alloc_pages(&mut m.k.mem, 1).unwrap();
    thread::install_initial(&mut m, &entry_on(0, 0), CODE_VA, abi::USER_STACK_TOP, ipc_pa);
    assert!(priority::init(&mut m, &entry_on(0, 0), 30, false, 1_000_000));
    m.ops.clear();
    m
}

fn call(m: &mut Machine, cx: &Entry, frame: &mut TrapFrame, sysno: u64, args: &[u64]) -> Dispatch {
    frame.x[8] = sysno;
    for (i, arg) in args.iter().enumerate() {
        frame.x[i] = *arg;
    }
    handle_svc_frame(m, cx, frame)
}

/// A system call that returns a value at once.
fn value(m: &mut Machine, sysno: u64, args: &[u64]) -> u64 {
    let mut frame = user_frame();
    assert_eq!(call(m, &entry_on(0, 0), &mut frame, sysno, args), Dispatch::Return);
    frame.x[0]
}

/// Makes a thread on a processor; its slot and its handle.
fn new_thread(m: &mut Machine, cpu: u64, urgency: u64) -> (usize, u64) {
    let handle = value(m, abi::SYS_THREAD_CREATE, &[CODE_VA, 7, cpu, urgency, 63]);
    let slot = thread::resolve_handle(&m.k.threads, task::current_owner(&m.k.task), handle);
    (slot.unwrap(), handle)
}

fn state(m: &Machine, slot: usize) -> ThreadState {
    m.k.threads.slots[slot].state
}

#[test]
fn a_new_thread_waits_for_its_turn() {
    let mut m = booted();
    let (slot, handle) = new_thread(&mut m, 0, 10);
    assert_eq!(slot, 1);
    assert!(!abi::is_sys_error(handle));
    assert_eq!(state(&m, 1), ThreadState::Ready);
    let context = m.k.threads.slots[1].context;
    assert_eq!(context.elr_el1, CODE_VA);
    assert_eq!(context.x[0], 7);
    assert_eq!(context.x[1], handle);
    assert_eq!(context.x[2], abi::THREAD_IPC_BUFFER_BASE + 4096);
    assert_eq!(context.sp_el0, abi::THREAD_STACK_ARENA_BASE + 2 * 64 * 4096);
}

#[test]
fn thread_creation_names_each_fault() {
    let mut m = booted();
    // A processor that is not there, a priority above the limit, and a limit that is none.
    assert_eq!(
        value(&mut m, abi::SYS_THREAD_CREATE, &[CODE_VA, 0, 2, 1, 63]),
        abi::SYS_ERR_INVALID
    );
    assert_eq!(
        value(&mut m, abi::SYS_THREAD_CREATE, &[CODE_VA, 0, 0, 9, 8]),
        abi::SYS_ERR_INVALID
    );
    assert_eq!(
        value(&mut m, abi::SYS_THREAD_CREATE, &[CODE_VA, 0, 0, 9, 64]),
        abi::SYS_ERR_INVALID
    );
    // An entry point that is not code.
    assert_eq!(
        value(&mut m, abi::SYS_THREAD_CREATE, &[0x5000_0000, 0, 0, 1, 63]),
        abi::SYS_ERR_DENIED
    );
    for _ in 1..16 {
        new_thread(&mut m, 0, 1);
    }
    assert_eq!(
        value(&mut m, abi::SYS_THREAD_CREATE, &[CODE_VA, 0, 0, 1, 63]),
        abi::SYS_ERR_NO_SLOT
    );
}

#[test]
fn the_most_urgent_thread_runs_next() {
    let mut m = booted();
    let (low, _) = new_thread(&mut m, 0, 10);
    let (high, _) = new_thread(&mut m, 0, 20);
    let (other, _) = new_thread(&mut m, 1, 60);
    let mut frame = user_frame();
    // The first thread has the middle priority and goes on when it yields.
    let cx = entry_on(0, 5);
    assert_eq!(call(&mut m, &cx, &mut frame, abi::SYS_THREAD_YIELD, &[]), Dispatch::Switch(0));
    // Once it ends, the more urgent of the others runs, then the last one.
    assert_eq!(
        call(&mut m, &cx, &mut frame, abi::SYS_THREAD_EXIT, &[0]),
        Dispatch::Switch(high)
    );
    assert_eq!(state(&m, high), ThreadState::Running);
    assert_eq!(m.k.threads.current[0] as usize, high);
    assert_eq!(
        call(&mut m, &cx, &mut frame, abi::SYS_THREAD_EXIT, &[0]),
        Dispatch::Switch(low)
    );
    assert_eq!(call(&mut m, &cx, &mut frame, abi::SYS_THREAD_EXIT, &[0]), Dispatch::Wait);
    // The thread of the other processor is not taken.
    assert_eq!(state(&m, other), ThreadState::Ready);
    assert_eq!(priority::idle_loop(&mut m, &entry_on(1, 6)), Dispatch::Switch(other));
}

#[test]
fn equals_take_turns() {
    let mut m = booted();
    let (a, _) = new_thread(&mut m, 0, 32);
    let (b, _) = new_thread(&mut m, 0, 32);
    let mut frame = user_frame();
    frame.spsr_el1 = 0;
    for next in [a, b, 0, a, b, 0] {
        // The timer says that the slice is over.
        let cx = entry_on(0, 100);
        assert_eq!(el1_irq_handler_frame(&mut m, &cx, 30, &frame), Dispatch::Switch(next));
    }
}

#[test]
fn runtime_is_charged_to_the_thread_that_ran() {
    let mut m = booted();
    let (_, handle) = new_thread(&mut m, 0, 40);
    let mut frame = user_frame();
    let cx = entry_on(0, 100);
    // A signal lets the more urgent thread in, though nobody waits for it.
    let notification = value(&mut m, abi::SYS_NOTIFICATION_CREATE, &[]);
    let next = call(
        &mut m,
        &cx,
        &mut frame,
        abi::SYS_NOTIFICATION_SIGNAL,
        &[notification, 1],
    );
    assert_eq!(next, Dispatch::Switch(1));
    let mut frame = user_frame();
    let later = entry_on(0, 175);
    assert_eq!(
        call(&mut m, &later, &mut frame, abi::SYS_THREAD_RUNTIME, &[handle]),
        Dispatch::Return
    );
    assert_eq!(frame.x[0], 75);
    assert_eq!(m.k.threads.slots[0].runtime_ticks, 100);
}

#[test]
fn a_message_reaches_a_waiting_receiver() {
    let mut m = booted();
    let (server, _) = new_thread(&mut m, 0, 40);
    let endpoint = value(&mut m, abi::SYS_ENDPOINT_CREATE, &[]);
    let mut frame = user_frame();
    let cx = entry_on(0, 1);
    // The server is more urgent, comes in at the first chance, and waits.
    let other = value(&mut m, abi::SYS_NOTIFICATION_CREATE, &[]);
    let mut first = user_frame();
    assert_eq!(
        call(&mut m, &cx, &mut first, abi::SYS_NOTIFICATION_SIGNAL, &[other, 1]),
        Dispatch::Switch(server)
    );
    assert_eq!(
        call(&mut m, &cx, &mut frame, abi::SYS_ENDPOINT_RECV, &[endpoint]),
        Dispatch::Switch(0)
    );
    assert_eq!(state(&m, server), ThreadState::Blocked);
    m.ops.clear();
    let sending = Entry { message: message(11), ..entry_on(0, 2) };
    assert_eq!(
        call(&mut m, &sending, &mut first, abi::SYS_ENDPOINT_SEND, &[endpoint]),
        Dispatch::Switch(server)
    );
    assert_eq!(state(&m, 0), ThreadState::Ready);
    let va = m.k.threads.slots[server].ipc_va;
    let written = m.ops.iter().any(|op| match op {
        HwOp::WriteMessage { va: to, message } => *to == va && message.label == 11,
        _ => false,
    });
    assert!(written);
    assert_eq!(m.k.threads.slots[server].context.x[0], 0);
}

/// The reply handle in the last message that was written for a thread.
fn reply_for(m: &Machine, slot: usize) -> u64 {
    let va = m.k.threads.slots[slot].ipc_va;
    let mut handle = 0;
    for op in m.ops.iter() {
        if let HwOp::WriteMessage { va: to, message } = op {
            if *to == va {
                handle = message.reply.0;
            }
        }
    }
    handle
}

/// The first thread has called `server` through an endpoint; the server runs.
fn called(m: &mut Machine, urgency: u64) -> (usize, u64, u64) {
    let (server, _) = new_thread(m, 0, urgency);
    let endpoint = value(m, abi::SYS_ENDPOINT_CREATE, &[]);
    let mut frame = user_frame();
    let calling = Entry { message: message(5), ..entry_on(0, 1) };
    assert_eq!(
        call(m, &calling, &mut frame, abi::SYS_ENDPOINT_CALL, &[endpoint]),
        Dispatch::Switch(server)
    );
    assert_eq!(
        call(m, &entry_on(0, 2), &mut frame, abi::SYS_ENDPOINT_RECV, &[endpoint]),
        Dispatch::Return
    );
    assert_eq!(frame.x[0], 0);
    let reply = reply_for(m, server);
    (server, endpoint, reply)
}

#[test]
fn a_server_inherits_the_priority_of_its_caller() {
    let mut m = booted();
    let (server, endpoint, reply) = called(&mut m, 3);
    assert_eq!(m.k.threads.slots[server].base_priority, 3);
    assert_eq!(m.k.threads.slots[server].effective_priority, 32);
    // The endpoint of an open call cannot go.
    let mut frame = user_frame();
    let cx = entry_on(0, 3);
    call(&mut m, &cx, &mut frame, abi::SYS_ENDPOINT_DESTROY, &[endpoint]);
    assert_eq!(frame.x[0], abi::SYS_ERR_BUSY);
    // The answer goes to the caller, and the server is as it was.
    let answering = Entry { message: message(6), ..entry_on(0, 4) };
    assert_eq!(
        call(&mut m, &answering, &mut frame, abi::SYS_ENDPOINT_REPLY, &[reply]),
        Dispatch::Switch(0)
    );
    assert_eq!(m.k.threads.slots[server].effective_priority, 3);
    assert_eq!(state(&m, 0), ThreadState::Running);
    let va = m.k.threads.slots[0].ipc_va;
    assert!(m.ops.iter().any(|op| match op {
        HwOp::WriteMessage { va: to, message } => *to == va && message.label == 6,
        _ => false,
    }));
}

#[test]
fn a_call_is_answered_once() {
    let mut m = booted();
    let (_, _, reply) = called(&mut m, 50);
    let mut frame = user_frame();
    let cx = entry_on(0, 4);
    assert_eq!(
        call(&mut m, &cx, &mut frame, abi::SYS_ENDPOINT_REPLY, &[reply]),
        Dispatch::Return
    );
    assert_eq!(frame.x[0], 0);
    assert_eq!(state(&m, 0), ThreadState::Ready);
    call(&mut m, &cx, &mut frame, abi::SYS_ENDPOINT_REPLY, &[reply]);
    assert_eq!(frame.x[0], abi::SYS_ERR_NOT_FOUND);
}

#[test]
fn answering_and_receiving_checks_both_handles_first() {
    let mut m = booted();
    let (_, endpoint, reply) = called(&mut m, 50);
    let mut frame = user_frame();
    let cx = entry_on(0, 4);
    let before = m.k.ipc.replies;
    call(&mut m, &cx, &mut frame, abi::SYS_ENDPOINT_REPLY_RECV, &[endpoint + 1, reply]);
    assert_eq!(frame.x[0], abi::SYS_ERR_NOT_FOUND);
    call(&mut m, &cx, &mut frame, abi::SYS_ENDPOINT_REPLY_RECV, &[endpoint, reply + 1]);
    assert_eq!(frame.x[0], abi::SYS_ERR_NOT_FOUND);
    assert_eq!(m.k.ipc.replies, before);
    assert_eq!(state(&m, 0), ThreadState::Blocked);
    assert_eq!(
        call(&mut m, &cx, &mut frame, abi::SYS_ENDPOINT_REPLY_RECV, &[endpoint, reply]),
        Dispatch::Switch(0)
    );
    assert_eq!(state(&m, 1), ThreadState::Blocked);
}

#[test]
fn a_caller_wakes_when_its_server_ends() {
    let mut m = booted();
    let (server, _, _) = called(&mut m, 50);
    let mut frame = user_frame();
    let cx = entry_on(0, 4);
    assert_eq!(
        call(&mut m, &cx, &mut frame, abi::SYS_THREAD_EXIT, &[0]),
        Dispatch::Switch(0)
    );
    assert_eq!(m.k.threads.slots[0].context.x[0], abi::SYS_ERR_NOT_FOUND);
    assert_eq!(state(&m, server), ThreadState::Exited);
    assert!(m.k.ipc.replies.iter().all(|reply| reply.owner == 0));
}

#[test]
fn badges_add_up_until_they_are_polled() {
    let mut m = booted();
    let handle = value(&mut m, abi::SYS_NOTIFICATION_CREATE, &[]);
    assert_eq!(value(&mut m, abi::SYS_NOTIFICATION_POLL, &[handle]), abi::SYS_ERR_WOULD_BLOCK);
    assert_eq!(value(&mut m, abi::SYS_NOTIFICATION_SIGNAL, &[handle, 0]), abi::SYS_ERR_INVALID);
    assert_eq!(value(&mut m, abi::SYS_NOTIFICATION_SIGNAL, &[handle, 1]), 0);
    assert_eq!(value(&mut m, abi::SYS_NOTIFICATION_SIGNAL, &[handle, 4]), 0);
    assert_eq!(value(&mut m, abi::SYS_NOTIFICATION_POLL, &[handle]), 5);
    assert_eq!(value(&mut m, abi::SYS_NOTIFICATION_POLL, &[handle]), abi::SYS_ERR_WOULD_BLOCK);
    assert_eq!(value(&mut m, abi::SYS_NOTIFICATION_DESTROY, &[handle]), 0);
    assert_eq!(value(&mut m, abi::SYS_NOTIFICATION_POLL, &[handle]), abi::SYS_ERR_NOT_FOUND);
}

#[test]
fn a_waiter_takes_all_badges() {
    let mut m = booted();
    let (waiter, _) = new_thread(&mut m, 0, 1);
    let handle = value(&mut m, abi::SYS_NOTIFICATION_CREATE, &[]);
    let mut frame = user_frame();
    let cx = entry_on(0, 1);
    // The first thread waits, the second one signals it.
    assert_eq!(
        call(&mut m, &cx, &mut frame, abi::SYS_NOTIFICATION_WAIT, &[handle]),
        Dispatch::Switch(waiter)
    );
    assert_eq!(
        value_in(&mut m, abi::SYS_NOTIFICATION_DESTROY, &[handle]),
        abi::SYS_ERR_BUSY
    );
    assert_eq!(
        call(&mut m, &cx, &mut frame, abi::SYS_NOTIFICATION_SIGNAL, &[handle, 6]),
        Dispatch::Switch(0)
    );
    assert_eq!(m.k.threads.slots[0].context.x[0], 6);
    assert_eq!(value(&mut m, abi::SYS_NOTIFICATION_POLL, &[handle]), abi::SYS_ERR_WOULD_BLOCK);
}

fn value_in(m: &mut Machine, sysno: u64, args: &[u64]) -> u64 {
    let mut frame = user_frame();
    call(m, &entry_on(0, 0), &mut frame, sysno, args);
    frame.x[0]
}

#[test]
fn handles_of_destroyed_objects_are_stale() {
    let mut m = booted();
    let endpoint = value(&mut m, abi::SYS_ENDPOINT_CREATE, &[]);
    assert_eq!(value(&mut m, abi::SYS_ENDPOINT_DESTROY, &[endpoint]), 0);
    assert_eq!(value(&mut m, abi::SYS_ENDPOINT_SEND, &[endpoint]), abi::SYS_ERR_NOT_FOUND);
    let again = value(&mut m, abi::SYS_ENDPOINT_CREATE, &[]);
    assert_ne!(again, endpoint);
    assert_eq!(value(&mut m, abi::SYS_ENDPOINT_DESTROY, &[0]), abi::SYS_ERR_INVALID);
    let (_, handle) = new_thread(&mut m, 0, 1);
    assert_eq!(thread::destroy(&mut m, handle), Ok(0));
    assert_eq!(thread::destroy(&mut m, handle), Ok(abi::SYS_ERR_NOT_FOUND));
    assert_eq!(thread::suspend(&mut m, handle), abi::SYS_ERR_NOT_FOUND);
}

#[test]
fn priorities_are_bounded_by_the_caller() {
    let mut m = booted();
    let (slot, handle) = new_thread(&mut m, 0, 1);
    let cx = entry_on(0, 1);
    assert_eq!(thread::set_priority(&mut m, &cx, handle, 64), abi::SYS_ERR_INVALID);
    m.k.threads.slots[0].max_control_priority = 40;
    assert_eq!(thread::set_priority(&mut m, &cx, handle, 41), abi::SYS_ERR_DENIED);
    assert_eq!(thread::set_priority(&mut m, &cx, handle, 40), 0);
    assert_eq!(m.k.threads.slots[slot].effective_priority, 40);
    let mut frame = user_frame();
    assert_eq!(priority::preempt_if_needed(&mut m, &cx, &mut frame), Dispatch::Switch(slot));
}

#[test]
fn a_suspended_thread_does_not_run() {
    let mut m = booted();
    let (slot, handle) = new_thread(&mut m, 0, 50);
    let cx = entry_on(0, 1);
    assert_eq!(thread::suspend(&mut m, handle), 0);
    assert_eq!(thread::suspend(&mut m, handle), 0);
    let frame = user_frame();
    assert_eq!(priority::preempt_if_needed(&mut m, &cx, &frame), Dispatch::Return);
    assert_eq!(thread::start(&mut m, &cx, handle), 0);
    assert_eq!(thread::start(&mut m, &cx, handle), abi::SYS_ERR_BUSY);
    assert_eq!(priority::preempt_if_needed(&mut m, &cx, &frame), Dispatch::Switch(slot));
    assert_eq!(thread::suspend(&mut m, handle), abi::SYS_ERR_BUSY);
}

#[test]
fn device_memory_needs_a_window_and_a_grant() {
    let mut m = booted();
    let va = abi::UART_VA;
    // Not aligned, not registered, registered but not granted, and out of the window.
    assert_eq!(value(&mut m, abi::SYS_MAP_MMIO, &[0x0900_0004, 0x1000, va]), 1);
    assert_eq!(value(&mut m, abi::SYS_MAP_MMIO, &[0x0b00_0000, 0x1000, va]), 2);
    assert_eq!(value(&mut m, abi::SYS_MAP_MMIO, &[0x0a00_0000, 0x1000, va]), 2);
    assert_eq!(value(&mut m, abi::SYS_MAP_MMIO, &[0x0900_0000, 0x2000, va]), 2);
    assert_eq!(value(&mut m, abi::SYS_MAP_MMIO, &[0x0900_0000, 0x1000, 0x5000_0000]), 5);
    assert_eq!(value(&mut m, abi::SYS_MAP_MMIO, &[0x0900_0000, 0x1000, va]), 0);
    let root = m.k.active_table;
    assert_eq!(mmu::mapped_pa(&m, root, va), Some(0x0900_0000));
    assert_eq!(value(&mut m, abi::SYS_MAP_MMIO, &[0x0900_0000, 0x1000, va]), 5);
    assert_eq!(value(&mut m, abi::SYS_UNMAP_MMIO, &[va, 0x1000]), 0);
    assert_eq!(mmu::mapped_pa(&m, root, va), None);
    assert_eq!(value(&mut m, abi::SYS_UNMAP_MMIO, &[va, 0x1000]), 2);
}

#[test]
fn dma_memory_comes_and_goes() {
    let mut m = booted();
    let free = physical::free_pages_total(&m.k.mem);
    let va = abi::DMA_ARENA_BASE;
    assert_eq!(value(&mut m, abi::SYS_DMA_ALLOC, &[0x1000, 3, va]), u64::MAX);
    assert_eq!(value(&mut m, abi::SYS_DMA_ALLOC, &[0, 4096, va]), u64::MAX);
    let pa = value(&mut m, abi::SYS_DMA_ALLOC, &[0x2001, 0x10000, va]);
    assert_eq!(pa % 0x10000, 0);
    let root = m.k.active_table;
    assert_eq!(mmu::mapped_pa(&m, root, va + 0x2000), Some(pa + 0x2000));
    // Not cached, and neither side may execute it.
    assert!(!mmu::is_user_executable(&m, root, va));
    assert_eq!(value(&mut m, abi::SYS_DMA_FREE, &[va, 0x1000]), 2);
    assert_eq!(value(&mut m, abi::SYS_DMA_FREE, &[va, 0x2001]), 0);
    assert_eq!(mmu::mapped_pa(&m, root, va), None);
    // A table may have been made on the way.
    assert!(free - physical::free_pages_total(&m.k.mem) <= 2);
}

#[test]
fn frames_are_writable_or_executable_never_both() {
    let mut m = booted();
    let handle = value(&mut m, abi::SYS_FRAME_ALLOC, &[2, 1]);
    let va = abi::FRAME_ARENA_BASE;
    let (read, write, execute) =
        (abi::FRAME_RIGHT_READ, abi::FRAME_RIGHT_WRITE, abi::FRAME_RIGHT_EXECUTE);
    assert_eq!(
        value(&mut m, abi::SYS_FRAME_MAP, &[handle, 0, 2, va, read | write | execute]),
        abi::SYS_ERR_DENIED
    );
    let mapping = value(&mut m, abi::SYS_FRAME_MAP, &[handle, 0, 2, va, read | write]);
    assert!(!abi::is_sys_error(mapping));
    assert_eq!(
        value(&mut m, abi::SYS_FRAME_MAP, &[handle, 0, 2, va + 0x10000, read | execute]),
        abi::SYS_ERR_DENIED
    );
    assert_eq!(value(&mut m, abi::SYS_FRAME_FREE, &[handle]), abi::SYS_ERR_BUSY);
    assert_eq!(
        value(&mut m, abi::SYS_FRAME_MAP, &[handle, 1, 2, va + 0x10000, read]),
        abi::SYS_ERR_INVALID
    );
    assert_eq!(
        value(&mut m, abi::SYS_FRAME_MAP, &[handle, 0, 2, va, read]),
        abi::SYS_ERR_CONFLICT
    );
    assert_eq!(value(&mut m, abi::SYS_FRAME_UNMAP, &[mapping]), 0);
    assert_eq!(value(&mut m, abi::SYS_FRAME_UNMAP, &[mapping]), abi::SYS_ERR_NOT_FOUND);
    let code = value(&mut m, abi::SYS_FRAME_MAP, &[handle, 0, 2, va, read | execute]);
    let root = m.k.active_table;
    assert!(mmu::is_user_executable(&m, root, va));
    assert!(!mmu::is_user_writable(&m, root, va, 8));
    assert_eq!(value(&mut m, abi::SYS_FRAME_UNMAP, &[code]), 0);
    assert_eq!(value(&mut m, abi::SYS_FRAME_FREE, &[handle]), 0);
    assert_eq!(value(&mut m, abi::SYS_FRAME_FREE, &[handle]), abi::SYS_ERR_NOT_FOUND);
    assert_eq!(value(&mut m, abi::SYS_FRAME_ALLOC, &[0, 1]), abi::SYS_ERR_INVALID);
}

#[test]
fn an_interrupt_is_disabled_until_it_is_acknowledged() {
    let mut m = booted();
    let notification = value(&mut m, abi::SYS_NOTIFICATION_CREATE, &[]);
    let here = abi::IRQ_TARGET_CURRENT;
    let line = LINE as u64;
    assert_eq!(value(&mut m, abi::SYS_IRQ_BIND, &[line + 1, notification, 8, here]), 2);
    assert_eq!(value(&mut m, abi::SYS_IRQ_BIND, &[16, notification, 8, here]), 1);
    assert_eq!(
        value(&mut m, abi::SYS_IRQ_BIND, &[line, notification, 0, here]),
        abi::SYS_ERR_INVALID
    );
    assert_eq!(
        value(&mut m, abi::SYS_IRQ_BIND, &[line, notification, 8, 2]),
        abi::SYS_ERR_INVALID
    );
    assert_eq!(value(&mut m, abi::SYS_IRQ_BIND, &[line, notification, 8, here]), 0);
    assert_eq!(value(&mut m, abi::SYS_IRQ_BIND, &[line, notification, 8, here]), 3);
    assert_eq!(value(&mut m, abi::SYS_IRQ_ACK, &[line]), 1);
    m.ops.clear();
    let frame = user_frame();
    let cx = entry_on(0, 1);
    assert_eq!(el1_irq_handler_frame(&mut m, &cx, LINE, &frame), Dispatch::Return);
    // Disabled first, ended then.
    let disable = m.ops.iter().position(|op| {
        matches!(op, HwOp::DistWrite { offset: 0x184, value: 2 })
    });
    let end = m.ops.iter().position(|op| matches!(op, HwOp::CpuWrite { value: LINE, .. }));
    assert!(disable.unwrap() < end.unwrap());
    assert_eq!(value(&mut m, abi::SYS_NOTIFICATION_POLL, &[notification]), 8);
    m.ops.clear();
    assert_eq!(value(&mut m, abi::SYS_IRQ_ACK, &[line]), 0);
    assert!(m.ops.iter().any(|op| matches!(op, HwOp::DistWrite { offset: 0x104, value: 2 })));
    assert_eq!(value(&mut m, abi::SYS_IRQ_ACK, &[line]), 1);
    assert_eq!(
        value(&mut m, abi::SYS_NOTIFICATION_DESTROY, &[notification]),
        abi::SYS_ERR_BUSY
    );
    assert_eq!(value(&mut m, abi::SYS_IRQ_UNBIND, &[line]), 0);
    assert_eq!(value(&mut m, abi::SYS_IRQ_UNBIND, &[line]), 1);
    assert_eq!(value(&mut m, abi::SYS_NOTIFICATION_DESTROY, &[notification]), 0);
}

#[test]
fn spurious_interrupts_change_nothing() {
    let mut m = booted();
    let frame = user_frame();
    let cx = entry_on(0, 1);
    assert_eq!(el1_irq_handler_frame(&mut m, &cx, 1023, &frame), Dispatch::Return);
    assert_eq!(m.ops.len(), 0);
}

#[test]
fn another_processor_is_told_of_urgent_work() {
    let mut m = booted();
    let (slot, handle) = new_thread(&mut m, 1, 5);
    assert_eq!(priority::idle_loop(&mut m, &entry_on(1, 3)), Dispatch::Switch(slot));
    m.ops.clear();
    let (urgent, _) = new_thread(&mut m, 1, 6);
    // An interrupt for processor 1.
    assert!(m.ops.iter().any(|op| matches!(op, HwOp::DistWrite { offset: 0xf00, .. })));
    let frame = user_frame();
    let there = entry_on(1, 4);
    assert_eq!(
        el1_irq_handler_frame(&mut m, &there, gic::SGI_RESCHEDULE, &frame),
        Dispatch::Switch(urgent)
    );
    assert_eq!(state(&m, slot), ThreadState::Ready);
    assert_eq!(thread::suspend(&mut m, handle), 0);
}

#[test]
fn the_end_of_the_task_gives_everything_back() {
    let mut m = booted();
    let used = physical::free_pages_total(&m.k.mem);
    new_thread(&mut m, 0, 1);
    let frame_handle = value(&mut m, abi::SYS_FRAME_ALLOC, &[4, 1]);
    let va = abi::FRAME_ARENA_BASE;
    value(&mut m, abi::SYS_FRAME_MAP, &[frame_handle, 0, 4, va, abi::FRAME_RIGHT_READ]);
    value(&mut m, abi::SYS_DMA_ALLOC, &[0x1000, 4096, abi::DMA_ARENA_BASE]);
    let mut frame = user_frame();
    let cx = entry_on(0, 1);
    assert_eq!(call(&mut m, &cx, &mut frame, abi::SYS_EXIT, &[3]), Dispatch::Exit(3));
    assert_eq!(task::exit_current(&mut m), Ok(Some(4)));
    // Code, stack, boot information, heap and the first thread's buffer were used before; what
    // is still missing are translation tables.
    let free = physical::free_pages_total(&m.k.mem);
    assert!(free >= used + 1 + 16 + 1 + 1024 + 1 - 12);
    assert!(!m.k.task.active);
    assert_eq!(task::current_owner(&m.k.task), 0);
    assert!(m.k.threads.slots.iter().all(|slot| slot.owner == 0));
    assert!(m.k.ipc.notifications.iter().all(|n| n.owner == 0));
    assert_eq!(task::exit_current(&mut m), Ok(None));
    assert_eq!(mmu::mapped_pa(&m, m.k.active_table, va), None);
}

#[test]
fn exceptions_other_than_system_calls_end_the_task() {
    let mut m = booted();
    let mut frame = user_frame();
    let cx = entry_on(0, 1);
    assert_eq!(class_of(0x5600_0000), 0x15);
    frame.x[8] = abi::SYS_ENDPOINT_CREATE;
    assert_eq!(
        el1_sync_handler_frame(&mut m, &cx, 0x5600_0000, &mut frame),
        Dispatch::Return
    );
    assert!(!abi::is_sys_error(frame.x[0]));
    assert_eq!(
        el1_sync_handler_frame(&mut m, &cx, 0x9200_0000, &mut frame),
        Dispatch::Exit(0x400)
    );
    assert_eq!(el2_sync_handler(0x9600_0000), Dispatch::Halt);
    assert_eq!(el2_sync_handler(0x5a00_0000), Dispatch::Return);
}

#[test]
fn numbers_without_a_meaning_are_refused() {
    let mut m = booted();
    assert_eq!(value(&mut m, 1, &[]), u64::MAX);
    assert_eq!(value(&mut m, 8, &[]), u64::MAX);
    assert_eq!(value(&mut m, 42, &[]), u64::MAX);
}

#[test]
fn address_spaces_are_apart() {
    let mut m = booted();
    let owner = task::current_owner(&m.k.task);
    let space = vspace::create(&mut m, owner).unwrap();
    assert!(!abi::is_sys_error(space));
    let frame_handle = value(&mut m, abi::SYS_FRAME_ALLOC, &[1, 1]);
    let va = 0x4010_0000u64;
    let mapped = vspace::map_frame_to(
        &mut m,
        owner,
        space,
        frame_handle,
        0,
        1,
        va,
        abi::FRAME_RIGHT_READ | abi::FRAME_RIGHT_EXECUTE,
    );
    assert!(!abi::is_sys_error(mapped));
    let (root, _) = vspace::resolve_for_owner(&m.k.spaces, owner, space).unwrap();
    assert!(mmu::mapped_pa(&m, root, va).is_some());
    assert_eq!(mmu::mapped_pa(&m, m.k.active_table, va), None);
    assert_eq!(vspace::destroy(&mut m, owner, space), Ok(abi::SYS_ERR_BUSY));
    assert_eq!(vspace::unmap_handle(&mut m, owner, mapped), 0);
    assert_eq!(vspace::destroy(&mut m, owner, space), Ok(0));
    assert_eq!(vspace::destroy(&mut m, owner, space), Ok(abi::SYS_ERR_NOT_FOUND));
}

#[test]
fn a_thread_in_another_space_waits_to_be_started() {
    let mut m = booted();
    let owner = task::current_owner(&m.k.task);
    let space = vspace::create(&mut m, owner).unwrap();
    let code = value(&mut m, abi::SYS_FRAME_ALLOC, &[1, 1]);
    let data = value(&mut m, abi::SYS_FRAME_ALLOC, &[1, 1]);
    let (read, write, execute) =
        (abi::FRAME_RIGHT_READ, abi::FRAME_RIGHT_WRITE, abi::FRAME_RIGHT_EXECUTE);
    let at = 0x4010_0000u64;
    vspace::map_frame_to(&mut m, owner, space, code, 0, 1, at, read | execute);
    vspace::map_frame_to(&mut m, owner, space, data, 0, 1, at + 0x1000, read | write);
    let mut config = ThreadCreateConfig::default();
    config.entry = at;
    config.stack_pointer = at + 0x2000;
    config.cpu = 1;
    config.priority = 9;
    config.max_control_priority = 9;
    let config_va = CODE_VA;
    config.reserved = 1;
    assert_eq!(
        thread::create_in(&mut m, space, config_va, config),
        Ok(abi::SYS_ERR_INVALID)
    );
    config.reserved = 0;
    config.entry = at + 0x1000;
    assert_eq!(thread::create_in(&mut m, space, config_va, config), Ok(abi::SYS_ERR_DENIED));
    config.entry = at;
    assert_eq!(
        thread::create_in(&mut m, space + 1, config_va, config),
        Ok(abi::SYS_ERR_DENIED)
    );
    let handle = thread::create_in(&mut m, space, config_va, config).unwrap();
    let slot = thread::resolve_handle(&m.k.threads, owner, handle).unwrap();
    assert_eq!(state(&m, slot), ThreadState::Suspended);
    assert_eq!(priority::idle_loop(&mut m, &entry_on(1, 1)), Dispatch::Wait);
    assert_eq!(thread::start(&mut m, &entry_on(0, 1), handle), 0);
    m.ops.clear();
    assert_eq!(priority::idle_loop(&mut m, &entry_on(1, 1)), Dispatch::Switch(slot));
    let (root, _) = vspace::resolve_for_owner(&m.k.spaces, owner, space).unwrap();
    let switched = m.ops.iter().any(|op| match op {
        HwOp::SwitchTable { root: to, .. } => *to == root,
        _ => false,
    });
    assert!(switched);
}

#[test]
fn a_space_and_its_thread_are_built_by_system_calls() {
    let mut m = booted();
    let owner = task::current_owner(&m.k.task);
    let space = value(&mut m, abi::SYS_VSPACE_CREATE, &[]);
    assert!(!abi::is_sys_error(space));
    let code = value(&mut m, abi::SYS_FRAME_ALLOC, &[1, 1]);
    let data = value(&mut m, abi::SYS_FRAME_ALLOC, &[1, 1]);
    let (read, write, execute) =
        (abi::FRAME_RIGHT_READ, abi::FRAME_RIGHT_WRITE, abi::FRAME_RIGHT_EXECUTE);
    let at = 0x4010_0000u64;
    let text = value(&mut m, abi::SYS_FRAME_MAP_TO, &[space, code, 0, 1, at, read | execute]);
    let stack =
        value(&mut m, abi::SYS_FRAME_MAP_TO, &[space, data, 0, 1, at + 0x1000, read | write]);
    assert!(!abi::is_sys_error(text) && !abi::is_sys_error(stack));
    let (root, _) = vspace::resolve_for_owner(&m.k.spaces, owner, space).unwrap();
    assert!(mmu::is_user_executable(&m, root, at));
    assert!(!mmu::is_user_executable(&m, root, at + 0x1000));
    assert!(mmu::is_user_writable(&m, root, at + 0x1000, 1));
    assert_eq!(mmu::mapped_pa(&m, m.k.active_table, at), None);
    // The rights are the sixth argument: both at once are refused.
    assert_eq!(
        value(&mut m, abi::SYS_FRAME_MAP_TO, &[space, data, 0, 1, at + 0x2000, write | execute]),
        abi::SYS_ERR_DENIED
    );

    let mut cx = entry_on(0, 1);
    cx.config.entry = at;
    cx.config.stack_pointer = at + 0x2000;
    cx.config.arg0 = 11;
    cx.config.arg1 = 12;
    cx.config.cpu = 1;
    cx.config.priority = 9;
    cx.config.max_control_priority = 9;
    let mut frame = user_frame();
    let made = call(&mut m, &cx, &mut frame, abi::SYS_THREAD_CREATE_IN, &[space, CODE_VA]);
    assert_eq!(made, Dispatch::Return);
    let handle = frame.x[0];
    let slot = thread::resolve_handle(&m.k.threads, owner, handle).unwrap();
    assert_eq!(state(&m, slot), ThreadState::Suspended);
    assert_eq!(m.k.threads.slots[slot].context.x[0], 11);
    assert_eq!(m.k.threads.slots[slot].context.x[1], 12);
    // A configuration that the caller cannot read counts for nothing.
    call(&mut m, &cx, &mut frame, abi::SYS_THREAD_CREATE_IN, &[space, 0x7000_0000]);
    assert_eq!(frame.x[0], abi::SYS_ERR_INVALID);

    assert_eq!(value(&mut m, abi::SYS_THREAD_START, &[handle]), 0);
    assert_eq!(state(&m, slot), ThreadState::Ready);
    assert_eq!(value(&mut m, abi::SYS_THREAD_START, &[handle]), abi::SYS_ERR_BUSY);
    assert_eq!(value(&mut m, abi::SYS_THREAD_SUSPEND, &[handle]), 0);
    assert_eq!(state(&m, slot), ThreadState::Suspended);
    assert_eq!(value(&mut m, abi::SYS_VSPACE_DESTROY, &[space]), abi::SYS_ERR_BUSY);
    assert_eq!(value(&mut m, abi::SYS_THREAD_DESTROY, &[handle]), 0);
    assert_eq!(state(&m, slot), ThreadState::Exited);
    assert_eq!(value(&mut m, abi::SYS_THREAD_DESTROY, &[handle]), abi::SYS_ERR_NOT_FOUND);
    assert_eq!(value(&mut m, abi::SYS_FRAME_UNMAP, &[text]), 0);
    assert_eq!(value(&mut m, abi::SYS_FRAME_UNMAP, &[stack]), 0);
    assert_eq!(value(&mut m, abi::SYS_VSPACE_DESTROY, &[space]), 0);
    assert_eq!(value(&mut m, abi::SYS_VSPACE_DESTROY, &[space]), abi::SYS_ERR_NOT_FOUND);
}

#[test]
fn a_full_range_table_is_a_fault() {
    let mut m = booted();
    // Fill the table of free ranges with single pages that do not touch.
    let owner = task::current_owner(&m.k.task);
    let handle = frame::allocate(&mut m, owner, 1, 1);
    physical::init_empty(&mut m.k.mem);
    for i in 0..64u64 {
        physical::add_range(&mut m.k.mem, 0x1_0000_0000 + i * 0x2000, 1);
    }
    assert_eq!(frame::free(&mut m, owner, handle), Err(Fault::RangeTableFull));
}

#[test]
fn a_queue_keeps_its_order() {
    let mut m = booted();
    let handle = value(&mut m, abi::SYS_NOTIFICATION_CREATE, &[]);
    let (a, _) = new_thread(&mut m, 0, 32);
    let (b, _) = new_thread(&mut m, 0, 32);
    let cx = entry_on(0, 1);
    let mut frame = user_frame();
    assert_eq!(
        call(&mut m, &cx, &mut frame, abi::SYS_NOTIFICATION_WAIT, &[handle]),
        Dispatch::Switch(a)
    );
    assert_eq!(
        call(&mut m, &cx, &mut frame, abi::SYS_NOTIFICATION_WAIT, &[handle]),
        Dispatch::Switch(b)
    );
    assert_eq!(ipc::notification_signal(&mut m, &cx, handle, 1), 0);
    assert_eq!(state(&m, 0), ThreadState::Ready);
    assert_eq!(state(&m, a), ThreadState::Blocked);
    assert_eq!(ipc::notification_signal(&mut m, &cx, handle, 1), 0);
    assert_eq!(state(&m, a), ThreadState::Ready);
}

#[test]
fn memory_is_zeroed_before_it_is_handed_out() {
    let mut m = booted();
    let handle = value(&mut m, abi::SYS_FRAME_ALLOC, &[2, 1]);
    let owner = task::current_owner(&m.k.task);
    let (_, frame_pa, _) = frame::resolve(&m.k.frames, owner, handle).unwrap();
    assert!(matches!(m.ops[0], HwOp::Zero { pa, bytes: 8192 } if pa == frame_pa));
    m.ops.clear();
    let dma = value(&mut m, abi::SYS_DMA_ALLOC, &[5000, 4096, abi::DMA_ARENA_BASE]);
    assert!(matches!(m.ops[0], HwOp::Zero { pa, bytes: 8192 } if pa == dma));
    m.ops.clear();
    let (slot, _) = new_thread(&mut m, 0, 1);
    let made = m.k.threads.slots[slot];
    assert!(matches!(m.ops[0], HwOp::Zero { pa, bytes: 0x4_0000 } if pa == made.stack_pa));
    assert!(matches!(m.ops[1], HwOp::Zero { pa, bytes: 4096 } if pa == made.ipc_pa));
}

#[test]
fn interrupts_need_a_grant() {
    let mut m = booted();
    let notification = value(&mut m, abi::SYS_NOTIFICATION_CREATE, &[]);
    let bind = |m: &mut Machine, line: u64, notification: u64, badge: u64, cpu: u64| {
        value(m, abi::SYS_IRQ_BIND, &[line, notification, badge, cpu])
    };
    assert_eq!(bind(&mut m, 1 << 32, notification, 1, 0), 1);
    assert_eq!(bind(&mut m, 31, notification, 1, 0), 1);
    assert_eq!(bind(&mut m, LINE as u64, notification, 1, 2), abi::SYS_ERR_INVALID);
    assert_eq!(bind(&mut m, LINE as u64 + 1, notification, 1, 0), 2);
    assert_eq!(bind(&mut m, LINE as u64, notification, 0, 0), abi::SYS_ERR_INVALID);
    assert_eq!(bind(&mut m, LINE as u64, notification + 1, 1, 0), abi::SYS_ERR_INVALID);
    assert_eq!(bind(&mut m, LINE as u64, notification, 1, 0), 0);
    assert_eq!(bind(&mut m, LINE as u64, notification, 1, 0), 3);
}

#[test]
fn a_message_waits_for_its_receiver() {
    let mut m = booted();
    let endpoint = value(&mut m, abi::SYS_ENDPOINT_CREATE, &[]);
    let (receiver, _) = new_thread(&mut m, 0, 1);
    let mut sending = user_frame();
    let cx = Entry { message: message(42), ..entry_on(0, 1) };
    // The sender waits, so the other thread runs.
    assert_eq!(
        call(&mut m, &cx, &mut sending, abi::SYS_ENDPOINT_SEND, &[endpoint]),
        Dispatch::Switch(receiver)
    );
    assert_eq!(state(&m, 0), ThreadState::Blocked);
    m.ops.clear();
    let mut receiving = user_frame();
    let there = entry_on(0, 2);
    assert_eq!(
        call(&mut m, &there, &mut receiving, abi::SYS_ENDPOINT_RECV, &[endpoint]),
        Dispatch::Return
    );
    assert_eq!(receiving.x[0], 0);
    let buffer = m.k.threads.slots[receiver].ipc_va;
    let got = m.ops.iter().find_map(|op| match op {
        HwOp::WriteMessage { va, message } if *va == buffer => Some(*message),
        _ => None,
    });
    let got = got.unwrap();
    assert_eq!((got.label, got.words, got.reply), (42, [42, 2, 3, 4], ReplyHandle(0)));
    assert_eq!(state(&m, 0), ThreadState::Ready);
}

#[test]
fn software_interrupts_keep_their_sender() {
    let mut m = booted();
    let (slot, _) = new_thread(&mut m, 0, 40);
    m.ops.clear();
    // The second processor asks the first to look again.
    let token = 0x400 | gic::SGI_RESCHEDULE;
    let next = el1_irq_handler_frame(&mut m, &entry_on(0, 9), token, &user_frame());
    assert_eq!(next, Dispatch::Switch(slot));
    assert!(m.ops.iter().any(|op| match op {
        HwOp::CpuWrite { offset, value } => *offset == gic::GICC_EOIR && *value == token,
        _ => false,
    }));
}

#[test]
fn priorities_travel_along_chains_and_circles() {
    let mut m = booted();
    let (near, _) = new_thread(&mut m, 1, 10);
    let (far, _) = new_thread(&mut m, 1, 5);
    let (apart, _) = new_thread(&mut m, 1, 7);
    let calls = [(0, near), (near, far), (far, near)];
    for (i, (caller, server)) in calls.iter().enumerate() {
        m.k.ipc.replies[i] = Reply {
            owner: 1,
            generation: 1,
            caller: *caller as u8,
            server: *server as u8,
            endpoint: 0,
        };
    }
    let cx = entry_on(0, 1);
    ipc::recompute_inherited_priorities(&mut m, &cx);
    let effective = |m: &Machine, slot: usize| m.k.threads.slots[slot].effective_priority;
    assert_eq!(effective(&m, near), 32);
    assert_eq!(effective(&m, far), 32);
    assert_eq!(effective(&m, apart), 7);
    assert_eq!(m.k.threads.slots[far].base_priority, 5);
    let asked = m.ops.len();
    ipc::recompute_inherited_priorities(&mut m, &cx);
    assert_eq!(m.ops.len(), asked);
    // Without the first call the circle falls back to its own most urgent thread.
    m.k.ipc.replies[0].owner = 0;
    ipc::recompute_inherited_priorities(&mut m, &cx);
    assert_eq!(effective(&m, near), 10);
    assert_eq!(effective(&m, far), 10);
}

#[test]
fn the_frames_of_an_owner_go_together() {
    let mut m = booted();
    let a = frame::allocate(&mut m, 1, 3, 1);
    let other = frame::allocate(&mut m, 2, 2, 1);
    let b = frame::allocate(&mut m, 1, 4, 4);
    let free = physical::free_pages_total(&m.k.mem);
    assert_eq!(frame::cleanup_owner(&mut m, 0), Ok(()));
    assert_eq!(physical::free_pages_total(&m.k.mem), free);
    assert!(frame::resolve(&m.k.frames, 1, a).is_ok());
    let kept = frame::resolve(&m.k.frames, 2, other);
    assert_eq!(frame::cleanup_owner(&mut m, 1), Ok(()));
    assert_eq!(physical::free_pages_total(&m.k.mem), free + 7);
    assert_eq!(frame::resolve(&m.k.frames, 1, a), Err(abi::SYS_ERR_NOT_FOUND));
    assert_eq!(frame::resolve(&m.k.frames, 1, b), Err(abi::SYS_ERR_NOT_FOUND));
    assert_eq!(frame::resolve(&m.k.frames, 2, other), kept);
    assert!(kept.is_ok());
}

#[test]
fn a_refused_mapping_leaves_no_trace() {
    let mut m = booted();
    let root = m.k.active_table;
    let space = vspace::current_handle(&m.k.spaces, 0);
    let handle = frame::allocate(&mut m, 1, 4, 1);
    let (slot, pa, _) = frame::resolve(&m.k.frames, 1, handle).unwrap();
    let va = abi::FRAME_ARENA_BASE;
    let read = abi::FRAME_RIGHT_READ;
    let first = vspace::map_frame_to(&mut m, 1, space, handle, 2, 1, va + 0x2000, read);
    assert!(!abi::is_sys_error(first));
    assert_eq!(mmu::mapped_pa(&m, root, va + 0x2000), Some(pa + 0x2000));
    // The third page of the run is taken, so none of it is mapped.
    let second = vspace::map_frame_to(&mut m, 1, space, handle, 0, 4, va, read);
    assert_eq!(second, abi::SYS_ERR_CONFLICT);
    assert_eq!(mmu::mapped_pa(&m, root, va), None);
    assert_eq!(mmu::mapped_pa(&m, root, va + 0x3000), None);
    assert_eq!(m.k.frames[slot].mapping_count, 1);
    assert_eq!(m.k.spaces.spaces[0].mapping_count, 1);
    assert_eq!(frame::free(&mut m, 1, handle), Ok(abi::SYS_ERR_BUSY));
    assert_eq!(vspace::unmap_handle(&mut m, 1, first), 0);
    assert_eq!(frame::free(&mut m, 1, handle), Ok(0));
}

#[test]
fn old_handles_of_address_spaces_stay_stale() {
    let mut m = booted();
    let old = vspace::create(&mut m, 1).ok().unwrap();
    assert!(vspace::resolve_for_owner(&m.k.spaces, 1, old).is_ok());
    assert_eq!(vspace::destroy(&mut m, 2, old), Ok(abi::SYS_ERR_DENIED));
    assert!(vspace::add_thread(&mut m.k.spaces, old).is_ok());
    assert_eq!(vspace::destroy(&mut m, 1, old), Ok(abi::SYS_ERR_BUSY));
    vspace::remove_thread(&mut m.k.spaces, old);
    assert_eq!(vspace::destroy(&mut m, 1, old), Ok(0));
    for _ in 0..3 {
        let new = vspace::create(&mut m, 1).ok().unwrap();
        assert_eq!(new as u32, old as u32);
        assert_eq!(
            vspace::resolve_for_owner(&m.k.spaces, 1, old),
            Err(abi::SYS_ERR_NOT_FOUND)
        );
        assert_eq!(vspace::destroy(&mut m, 1, old), Ok(abi::SYS_ERR_NOT_FOUND));
        assert_eq!(vspace::destroy(&mut m, 1, new), Ok(0));
    }
}

#[test]
fn old_handles_of_notifications_stay_stale() {
    let mut m = booted();
    let old = value(&mut m, abi::SYS_NOTIFICATION_CREATE, &[]);
    let other = value(&mut m, abi::SYS_NOTIFICATION_CREATE, &[]);
    assert_eq!(value(&mut m, abi::SYS_NOTIFICATION_SIGNAL, &[old, 1]), 0);
    assert_eq!(value(&mut m, abi::SYS_NOTIFICATION_DESTROY, &[other]), 0);
    assert!(ipc::notification_valid(&m, old));
    assert_eq!(value(&mut m, abi::SYS_NOTIFICATION_DESTROY, &[old]), 0);
    assert!(!ipc::notification_valid(&m, old));
    let new = value(&mut m, abi::SYS_NOTIFICATION_CREATE, &[]);
    assert_eq!(new as u32, old as u32);
    assert!(ipc::notification_valid(&m, new));
    assert!(!ipc::notification_valid(&m, old));
    for handle in [0, 1, 1 << 32, (1 << 32) | 33] {
        assert!(!ipc::notification_valid(&m, handle));
    }
}

#[test]
fn only_the_server_answers() {
    let mut m = booted();
    let (server, _, reply) = called(&mut m, 50);
    let (other, _) = new_thread(&mut m, 0, 60);
    let cx = entry_on(0, 4);
    let mut frame = user_frame();
    assert_eq!(
        call(&mut m, &cx, &mut frame, abi::SYS_THREAD_YIELD, &[]),
        Dispatch::Switch(other)
    );
    call(&mut m, &cx, &mut frame, abi::SYS_ENDPOINT_REPLY, &[reply]);
    assert_eq!(frame.x[0], abi::SYS_ERR_NOT_FOUND);
    assert_eq!(state(&m, 0), ThreadState::Blocked);
    assert_eq!(
        call(&mut m, &cx, &mut frame, abi::SYS_THREAD_EXIT, &[0]),
        Dispatch::Switch(server)
    );
    assert_eq!(value_in(&mut m, abi::SYS_ENDPOINT_REPLY, &[reply]), 0);
    assert_eq!(state(&m, 0), ThreadState::Ready);
    assert_eq!(m.k.threads.slots[0].context.x[0], 0);
    // The right is spent, and stays so when its place is used again.
    assert_eq!(value_in(&mut m, abi::SYS_ENDPOINT_REPLY, &[reply]), abi::SYS_ERR_NOT_FOUND);
}

#[test]
fn waiting_threads_have_been_charged() {
    let mut m = booted();
    let (other, handle) = new_thread(&mut m, 0, 1);
    let notification = value(&mut m, abi::SYS_NOTIFICATION_CREATE, &[]);
    let mut frame = user_frame();
    assert_eq!(
        call(&mut m, &entry_on(0, 100), &mut frame, abi::SYS_NOTIFICATION_WAIT, &[notification]),
        Dispatch::Switch(other)
    );
    assert_eq!(m.k.threads.slots[0].runtime_ticks, 100);
    assert_eq!(m.k.threads.slots[other].runtime_ticks, 0);
    let mut frame = user_frame();
    assert_eq!(
        call(&mut m, &entry_on(0, 160), &mut frame, abi::SYS_NOTIFICATION_SIGNAL, &[notification, 1]),
        Dispatch::Switch(0)
    );
    assert_eq!(thread::runtime(&m, &entry_on(0, 500), handle), 60);
    assert_eq!(thread::runtime(&m, &entry_on(0, 500), 0), abi::SYS_ERR_INVALID);
    assert_eq!(thread::runtime(&m, &entry_on(0, 500), handle + 1), abi::SYS_ERR_NOT_FOUND);
}

/// Every run of pages that is in use or free: address and number of pages.
fn all_runs(m: &Machine) -> Vec<(u64, u64)> {
    let mut runs: Vec<(u64, u64)> =
        m.k.mem.ranges[..m.k.mem.count].iter().map(|r| (r.base, r.pages)).collect();
    runs.extend(m.k.frames.iter().filter(|f| f.owner != 0).map(|f| (f.pa, f.pages)));
    for slot in &m.k.threads.slots {
        runs.push((slot.stack_pa, slot.stack_pages));
        runs.push((slot.ipc_pa, if slot.ipc_pa != 0 { 1 } else { 0 }));
    }
    let task = &m.k.task;
    if task.active {
        runs.extend(task.owned[..task.owned_count].iter().map(|o| (o.pa, o.pages)));
        runs.extend([(task.stack_pa, 16), (task.boot_info_pa, 1), (task.heap_pa, 1024)]);
        runs.extend(task.dma[..task.dma_count].iter().map(|d| (d.pa, d.pages)));
    }
    for table in &m.tables {
        runs.push((table.root, 1));
        for slot in &table.slots {
            if let mmu::Slot1::Table(l2) = slot {
                runs.push((l2.pa, 1));
                for inner in &l2.slots {
                    if let mmu::Slot2::Table(l3) = inner {
                        runs.push((l3.pa, 1));
                    }
                }
            }
        }
    }
    runs.retain(|run| run.1 != 0);
    runs.sort();
    runs
}

/// No two runs overlap.
fn isolated(m: &Machine) -> bool {
    all_runs(m).windows(2).all(|pair| pair[0].0 + pair[0].1 * 4096 <= pair[1].0)
}

#[test]
fn no_page_has_two_uses() {
    let mut m = booted();
    assert!(isolated(&m));
    let pages_in_all = |m: &Machine| -> u64 { all_runs(m).iter().map(|run| run.1).sum() };
    let all = pages_in_all(&m);
    assert_eq!(all, 0x4000);
    let (_, handle) = new_thread(&mut m, 0, 10);
    let one = value(&mut m, abi::SYS_FRAME_ALLOC, &[3, 1]);
    let two = value(&mut m, abi::SYS_FRAME_ALLOC, &[1, 1]);
    assert!(isolated(&m));
    let va = abi::FRAME_ARENA_BASE;
    let mapping = value(&mut m, abi::SYS_FRAME_MAP, &[one, 0, 3, va, abi::FRAME_RIGHT_READ]);
    assert!(isolated(&m));
    value(&mut m, abi::SYS_DMA_ALLOC, &[0x2000, 4096, abi::DMA_ARENA_BASE]);
    let space = value(&mut m, abi::SYS_VSPACE_CREATE, &[]);
    assert!(isolated(&m));
    // Nothing is lost either: what is not free is in use.
    assert_eq!(pages_in_all(&m), all);
    assert_eq!(value(&mut m, abi::SYS_FRAME_UNMAP, &[mapping]), 0);
    assert_eq!(value(&mut m, abi::SYS_FRAME_FREE, &[two]), 0);
    assert_eq!(value(&mut m, abi::SYS_DMA_FREE, &[abi::DMA_ARENA_BASE, 0x2000]), 0);
    assert_eq!(value(&mut m, abi::SYS_VSPACE_DESTROY, &[space]), 0);
    assert!(isolated(&m));
    assert_eq!(pages_in_all(&m), all);
    // A thread that is destroyed gives its buffer back, not its stack.
    assert_eq!(value(&mut m, abi::SYS_THREAD_DESTROY, &[handle]), 0);
    assert!(isolated(&m));
    assert_eq!(pages_in_all(&m), all - 64);
    assert!(task::exit_current(&mut m).is_ok());
    assert!(isolated(&m));
    assert_eq!(pages_in_all(&m), all - 64);
}

#[test]
fn counts_are_exact_when_all_mappings_go() {
    let mut m = booted();
    let owner = task::current_owner(&m.k.task);
    let handle = value(&mut m, abi::SYS_FRAME_ALLOC, &[2, 1]);
    let other = frame::allocate(&mut m, owner + 1, 1, 1);
    let va = abi::FRAME_ARENA_BASE;
    for i in 0..2 {
        let args = [handle, i, 1, va + i * 0x1000, abi::FRAME_RIGHT_READ];
        assert!(!abi::is_sys_error(value(&mut m, abi::SYS_FRAME_MAP, &args)));
    }
    let (slot, _, _) = frame::resolve(&m.k.frames, owner, handle).unwrap();
    assert_eq!(m.k.frames[slot].mapping_count, 2);
    assert_eq!(value(&mut m, abi::SYS_FRAME_FREE, &[handle]), abi::SYS_ERR_BUSY);
    vspace::cleanup_owner(&mut m, owner);
    assert!(m.k.spaces.mappings.iter().all(|mapping| mapping.owner != owner));
    assert_eq!(m.k.frames.iter().filter(|f| f.owner == owner && f.mapping_count != 0).count(), 0);
    assert!(frame::resolve(&m.k.frames, owner + 1, other).is_ok());
    assert_eq!(mmu::mapped_pa(&m, m.k.active_table, va), None);
    assert_eq!(value(&mut m, abi::SYS_FRAME_FREE, &[handle]), 0);
}

/// Every thread has a smaller number than the one that is given out next.
fn numbers_in_order(m: &Machine) -> bool {
    m.k.threads.slots.iter().all(|slot| slot.ready_sequence < m.k.sched.ready_sequence)
}

#[test]
fn numbers_are_given_out_in_order() {
    let mut m = booted();
    assert!(numbers_in_order(&m));
    let first = m.k.sched.ready_sequence;
    let (a, _) = new_thread(&mut m, 0, 32);
    let (b, _) = new_thread(&mut m, 0, 32);
    assert!(m.k.threads.slots[a].ready_sequence < m.k.threads.slots[b].ready_sequence);
    assert_eq!(m.k.sched.ready_sequence, first + 2);
    let mut frame = user_frame();
    let cx = entry_on(0, 1);
    assert_eq!(call(&mut m, &cx, &mut frame, abi::SYS_THREAD_YIELD, &[]), Dispatch::Switch(a));
    assert!(numbers_in_order(&m));
    assert_eq!(m.k.threads.slots[0].ready_sequence, first + 2);
}

#[test]
fn a_stale_handle_stays_stale_when_its_place_is_taken_again() {
    let mut m = booted();
    let old = value(&mut m, abi::SYS_NOTIFICATION_CREATE, &[]);
    assert_eq!(value(&mut m, abi::SYS_NOTIFICATION_DESTROY, &[old]), 0);
    for _ in 0..1000 {
        let new = value(&mut m, abi::SYS_NOTIFICATION_CREATE, &[]);
        assert_eq!(new & 0xffff_ffff, old & 0xffff_ffff);
        assert!(ipc::notification_valid(&m, new) && !ipc::notification_valid(&m, old));
        assert_eq!(value(&mut m, abi::SYS_NOTIFICATION_DESTROY, &[new]), 0);
    }
    assert!(!ipc::notification_valid(&m, old));
}
