//! Constants and plain types shared by the kernel and its EL0 clients.
//!
//! The numbers here are the binary interface: virtual address layout, system call
//! numbers, error codes, and the fixed-layout records that cross the EL0/EL1 border.
use vstd::prelude::*;

verus! {

pub const PAGE_SIZE: u64 = 4096;

pub const USER_BASE: u64 = 0x4000_0000;

pub const USER_BOOT_INFO_VA: u64 = 0x4020_0000;

pub const UART_VA: u64 = 0x4040_0000;

pub const PCI_ECAM_VA: u64 = 0x4050_0000;

pub const XHCI_VA: u64 = 0x4060_0000;

/// Every virtio-mmio transport page of the device tree is mapped in this window.
pub const VIRTIO_MMIO_VA: u64 = 0x4070_0000;

pub const USER_HEAP_BASE: u64 = 0x4080_0000;

pub const USER_HEAP_SIZE: u64 = 4 * 1024 * 1024;

pub const USER_STACK_TOP: u64 = 0x4100_0000;

pub const USER_STACK_PAGES: u64 = 16;

pub const DMA_ARENA_BASE: u64 = 0x4120_0000;

pub const DMA_ARENA_END: u64 = 0x41e0_0000;

pub const USER_WINDOW_END: u64 = 0x4200_0000;

pub const FRAME_ARENA_BASE: u64 = 0x2_0000_0000;

/// A 512 MiB arena: model weights first, the inference workspace behind them.
pub const FRAME_ARENA_END: u64 = 0x2_2000_0000;

/// Camera, state and action files are mapped in the last 32 MiB of the frame arena.
pub const ACT_INPUT_ARENA_BASE: u64 = FRAME_ARENA_BASE + 480 * 1024 * 1024;

/// Every stack that thread creation allocates is 256 KiB.
pub const THREAD_STACK_PAGES: u64 = 64;

pub const THREAD_STACK_ARENA_BASE: u64 = FRAME_ARENA_END;

pub const THREAD_STACK_ARENA_END: u64 = THREAD_STACK_ARENA_BASE + 16 * 64 * 4096;

pub const THREAD_IPC_BUFFER_BASE: u64 = THREAD_STACK_ARENA_END;

pub const THREAD_IPC_BUFFER_END: u64 = THREAD_IPC_BUFFER_BASE + 16 * 4096;

pub const IPC_MESSAGE_WORDS: usize = 4;

pub const SYS_PUTS: u64 = 2;

pub const SYS_EXIT: u64 = 5;

pub const SYS_MAP_MMIO: u64 = 6;

pub const SYS_IRQ_BIND: u64 = 7;

// Number 8 stays unused so that the other numbers keep their meaning.
pub const SYS_IRQ_ACK: u64 = 9;

pub const SYS_IRQ_UNBIND: u64 = 10;

pub const SYS_UNMAP_MMIO: u64 = 11;

pub const SYS_DMA_ALLOC: u64 = 12;

pub const SYS_DMA_FREE: u64 = 13;

pub const SYS_FRAME_ALLOC: u64 = 14;

pub const SYS_FRAME_FREE: u64 = 15;

pub const SYS_FRAME_MAP: u64 = 16;

pub const SYS_FRAME_UNMAP: u64 = 17;

pub const SYS_THREAD_CREATE: u64 = 18;

pub const SYS_THREAD_EXIT: u64 = 19;

pub const SYS_THREAD_YIELD: u64 = 20;

pub const SYS_THREAD_SET_PRIORITY: u64 = 21;

pub const SYS_ENDPOINT_CREATE: u64 = 22;

pub const SYS_ENDPOINT_SEND: u64 = 23;

pub const SYS_ENDPOINT_RECV: u64 = 24;

pub const SYS_ENDPOINT_CALL: u64 = 25;

pub const SYS_ENDPOINT_REPLY: u64 = 26;

pub const SYS_ENDPOINT_REPLY_RECV: u64 = 27;

pub const SYS_NOTIFICATION_CREATE: u64 = 28;

pub const SYS_NOTIFICATION_SIGNAL: u64 = 29;

pub const SYS_NOTIFICATION_WAIT: u64 = 30;

pub const SYS_NOTIFICATION_POLL: u64 = 31;

pub const SYS_NOTIFICATION_DESTROY: u64 = 32;

pub const SYS_THREAD_RUNTIME: u64 = 33;

pub const SYS_ENDPOINT_DESTROY: u64 = 34;

pub const SYS_VSPACE_CREATE: u64 = 35;

pub const SYS_VSPACE_DESTROY: u64 = 36;

pub const SYS_FRAME_MAP_TO: u64 = 37;

pub const SYS_THREAD_CREATE_IN: u64 = 38;

pub const SYS_THREAD_START: u64 = 39;

pub const SYS_THREAD_SUSPEND: u64 = 40;

pub const SYS_THREAD_DESTROY: u64 = 41;

/// Number of AArch64 processors that the kernel drives.
pub const MAX_CPUS: usize = 4;

/// Static priorities are 0..=63; a larger number runs first.
pub const MAX_THREAD_PRIORITY: u8 = 63;

/// Length of the round-robin slice among threads of one priority.
pub const THREAD_TIME_SLICE_NS: u64 = 1_000_000;

/// Binds an interrupt to the processor that makes the system call.
pub const IRQ_TARGET_CURRENT: u64 = 0xffff_ffff_ffff_ffff;

pub const USER_BOOT_INFO_MAGIC: u32 = 0x4558_4f42;

pub const USER_BOOT_INFO_VERSION: u16 = 12;

pub const XHCI_TRANSPORT_NONE: u32 = 0;

pub const XHCI_TRANSPORT_PCI: u32 = 1;

pub const XHCI_TRANSPORT_DIRECT: u32 = 2;

pub const MAX_PCI_RANGES: usize = 3;

pub const MAX_PCI_INTX_ROUTES: usize = 16;

pub const FRAME_RIGHT_READ: u64 = 1;

pub const FRAME_RIGHT_WRITE: u64 = 2;

pub const FRAME_RIGHT_EXECUTE: u64 = 4;

pub const SYS_ERR_INVALID: u64 = 0xffff_ffff_ffff_ffff;

pub const SYS_ERR_NO_MEMORY: u64 = 0xffff_ffff_ffff_fffe;

pub const SYS_ERR_NO_SLOT: u64 = 0xffff_ffff_ffff_fffd;

pub const SYS_ERR_DENIED: u64 = 0xffff_ffff_ffff_fffc;

pub const SYS_ERR_BUSY: u64 = 0xffff_ffff_ffff_fffb;

pub const SYS_ERR_CONFLICT: u64 = 0xffff_ffff_ffff_fffa;

pub const SYS_ERR_NOT_FOUND: u64 = 0xffff_ffff_ffff_fff9;

pub const SYS_ERR_WOULD_BLOCK: u64 = 0xffff_ffff_ffff_fff8;

/// The eight largest numbers are error codes; every smaller result is a value.
pub fn is_sys_error(value: u64) -> (r: bool)
    ensures
        r == sys_error(value),
{
    value >= SYS_ERR_WOULD_BLOCK
}

/// `value` is one of the eight error codes.
pub open spec fn sys_error(value: u64) -> bool {
    ||| value == SYS_ERR_INVALID
    ||| value == SYS_ERR_NO_MEMORY
    ||| value == SYS_ERR_NO_SLOT
    ||| value == SYS_ERR_DENIED
    ||| value == SYS_ERR_BUSY
    ||| value == SYS_ERR_CONFLICT
    ||| value == SYS_ERR_NOT_FOUND
    ||| value == SYS_ERR_WOULD_BLOCK
}

#[derive(Clone, Copy, Debug, PartialEq, Eq, Structural)]
pub struct FrameHandle(pub u64);

#[derive(Clone, Copy, Debug, PartialEq, Eq, Structural)]
pub struct MappingHandle(pub u64);

#[derive(Clone, Copy, Debug, PartialEq, Eq, Structural)]
pub struct ThreadHandle(pub u64);

#[derive(Clone, Copy, Debug, PartialEq, Eq, Structural)]
pub struct EndpointHandle(pub u64);

#[derive(Clone, Copy, Debug, PartialEq, Eq, Structural)]
pub struct NotificationHandle(pub u64);

#[derive(Clone, Copy, Debug, PartialEq, Eq, Structural)]
pub struct ReplyHandle(pub u64);

/// Handle of an independent user address space. It reveals neither the physical
/// address of the page table root nor the address space identifier.
#[derive(Clone, Copy, Debug, PartialEq, Eq, Structural)]
pub struct VSpaceHandle(pub u64);

impl Default for ReplyHandle {
    fn default() -> (r: Self)
        ensures
            r == ReplyHandle(0),
    {
        ReplyHandle(0)
    }
}

/// What EL0 submits to create a thread inside a chosen address space.
#[derive(Clone, Copy, Debug, PartialEq, Eq, Structural)]
pub struct ThreadCreateConfig {
    pub entry: u64,
    pub stack_pointer: u64,
    pub arg0: u64,
    pub arg1: u64,
    pub cpu: u8,
    pub priority: u8,
    pub max_control_priority: u8,
    pub reserved: u8,
}

impl Default for ThreadCreateConfig {
    fn default() -> (r: Self)
        ensures
            r == (ThreadCreateConfig {
                entry: 0,
                stack_pointer: 0,
                arg0: 0,
                arg1: 0,
                cpu: 0,
                priority: 0,
                max_control_priority: 0,
                reserved: 0,
            }),
    {
        ThreadCreateConfig {
            entry: 0,
            stack_pointer: 0,
            arg0: 0,
            arg1: 0,
            cpu: 0,
            priority: 0,
            max_control_priority: 0,
            reserved: 0,
        }
    }
}

/// Number of bytes that `ThreadCreateConfig` takes in user memory.
pub const THREAD_CREATE_CONFIG_BYTES: u64 = 40;

/// The message at the head of a thread's IPC buffer.
#[derive(Clone, Copy)]
#[verifier::ext_equal]
pub struct IpcMessage {
    pub label: u64,
    pub words: [u64; 4],
    pub reply: ReplyHandle,
}

impl Default for IpcMessage {
    fn default() -> (r: Self)
        ensures
            r.label == 0,
            r.words@ == seq![0u64, 0, 0, 0],
            r.reply == ReplyHandle(0),
    {
        let r = IpcMessage { label: 0, words: [0u64; 4], reply: ReplyHandle(0) };
        assert(r.words@ =~= seq![0u64, 0, 0, 0]);
        r
    }
}

#[derive(Clone, Copy, Debug, PartialEq, Eq, Structural)]
pub struct DeviceResource {
    pub base: u64,
    pub size: u64,
    pub intid: u32,
}

impl Default for DeviceResource {
    fn default() -> (r: Self)
        ensures
            r == (DeviceResource { base: 0, size: 0, intid: 0 }),
    {
        DeviceResource { base: 0, size: 0, intid: 0 }
    }
}

#[derive(Clone, Copy, Debug, PartialEq, Eq, Structural)]
pub struct PciRange {
    pub flags: u32,
    pub child_base: u64,
    pub parent_base: u64,
    pub size: u64,
}

impl Default for PciRange {
    fn default() -> (r: Self)
        ensures
            r == (PciRange { flags: 0, child_base: 0, parent_base: 0, size: 0 }),
    {
        PciRange { flags: 0, child_base: 0, parent_base: 0, size: 0 }
    }
}

#[derive(Clone, Copy, Debug, PartialEq, Eq, Structural)]
pub struct PciIntxRoute {
    pub child_address_hi: u32,
    pub pin: u32,
    pub intid: u32,
    pub flags: u32,
}

impl Default for PciIntxRoute {
    fn default() -> (r: Self)
        ensures
            r == (PciIntxRoute { child_address_hi: 0, pin: 0, intid: 0, flags: 0 }),
    {
        PciIntxRoute { child_address_hi: 0, pin: 0, intid: 0, flags: 0 }
    }
}

#[derive(Clone, Copy)]
#[verifier::ext_equal]
pub struct PciHostInfo {
    pub present: u32,
    pub ecam_pa: u64,
    pub ecam_size: u64,
    pub bus_start: u8,
    pub range_count: u8,
    pub intx_route_count: u8,
    pub interrupt_map_mask_hi: u32,
    pub interrupt_map_mask_pin: u32,
    pub ranges: [PciRange; 3],
    pub intx_routes: [PciIntxRoute; 16],
}

impl PciHostInfo {
    /// Every field is zero: no PCI host.
    pub open spec fn none() -> PciHostInfo {
        PciHostInfo {
            present: 0,
            ecam_pa: 0,
            ecam_size: 0,
            bus_start: 0,
            range_count: 0,
            intx_route_count: 0,
            interrupt_map_mask_hi: 0,
            interrupt_map_mask_pin: 0,
            ranges: crate::util::filled(
                PciRange { flags: 0, child_base: 0, parent_base: 0, size: 0 },
            ),
            intx_routes: crate::util::filled(
                PciIntxRoute { child_address_hi: 0, pin: 0, intid: 0, flags: 0 },
            ),
        }
    }

    pub open spec fn wf(self) -> bool {
        self.range_count <= 3 && self.intx_route_count <= 16
    }
}

impl Default for PciHostInfo {
    fn default() -> (r: Self)
        ensures
            r == PciHostInfo::none(),
    {
        let range = PciRange { flags: 0, child_base: 0, parent_base: 0, size: 0 };
        let route = PciIntxRoute { child_address_hi: 0, pin: 0, intid: 0, flags: 0 };
        PciHostInfo {
            present: 0,
            ecam_pa: 0,
            ecam_size: 0,
            bus_start: 0,
            range_count: 0,
            intx_route_count: 0,
            interrupt_map_mask_hi: 0,
            interrupt_map_mask_pin: 0,
            ranges: [range; 3],
            intx_routes: [route; 16],
        }
    }
}

/// Number of bytes that `UserBootInfo` takes in user memory.
pub const USER_BOOT_INFO_BYTES: u16 = 480;

#[derive(Clone, Copy)]
#[verifier::ext_equal]
pub struct UserBootInfo {
    pub magic: u32,
    pub version: u16,
    pub size: u16,
    pub uart: DeviceResource,
    pub xhci: DeviceResource,
    /// The virtio-mmio transport window; EL0 still reads the device identifiers.
    pub virtio_mmio: DeviceResource,
    pub xhci_transport: u32,
    /// Number of processors that were brought up and take part in scheduling.
    pub cpu_count: u32,
    pub pci: PciHostInfo,
}

impl Default for UserBootInfo {
    fn default() -> (r: Self)
        ensures
            r.magic == 0,
            r.version == 0,
            r.size == 0,
            r.uart == (DeviceResource { base: 0, size: 0, intid: 0 }),
            r.xhci == (DeviceResource { base: 0, size: 0, intid: 0 }),
            r.virtio_mmio == (DeviceResource { base: 0, size: 0, intid: 0 }),
            r.xhci_transport == 0,
            r.cpu_count == 0,
            r.pci == PciHostInfo::none(),
    {
        let none = DeviceResource { base: 0, size: 0, intid: 0 };
        UserBootInfo {
            magic: 0,
            version: 0,
            size: 0,
            uart: none,
            xhci: none,
            virtio_mmio: none,
            xhci_transport: 0,
            cpu_count: 0,
            pci: PciHostInfo::default(),
        }
    }
}

} // verus!
