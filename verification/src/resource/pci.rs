//! The generic PCI host of a device tree. No PCI device is looked at here.
use crate::abi::{PciHostInfo, PciIntxRoute, PciRange, MAX_PCI_INTX_ROUTES, MAX_PCI_RANGES};
use crate::boot::dtb::{self, read_be};
use crate::resource::tree;
use crate::util::ArrayUpdate;
use vstd::prelude::*;

verus! {

/// The big-endian number of two words at byte `at`.
pub open spec fn double(value: Seq<u8>, at: int) -> u64 {
    (dtb::word(value, at) * 0x1_0000_0000 + dtb::word(value, at + 4)) as u64
}

fn read_double(value: &[u8], at: usize) -> (r: u64)
    requires
        at + 8 <= value@.len(),
    ensures
        r == double(value@, at as int),
{
    let len: usize = value.len();
    assert(at + 8 <= len);
    let high: u64 = read_be(value, at) as u64;
    let low: u64 = read_be(value, at + 4) as u64;
    high * 0x1_0000_0000 + low
}

/// Entry `e` of a `ranges` property: flags, PCI address, processor address, size.
pub open spec fn range_at(ranges: Seq<u8>, e: int) -> PciRange {
    PciRange {
        flags: dtb::word(ranges, 28 * e) as u32,
        child_base: double(ranges, 28 * e + 4),
        parent_base: double(ranges, 28 * e + 12),
        size: double(ranges, 28 * e + 20),
    }
}

/// The first `n` entries of a `ranges` property.
pub open spec fn with_ranges(info: PciHostInfo, ranges: Seq<u8>, n: int) -> PciHostInfo
    decreases n,
{
    if n <= 0 {
        info
    } else {
        let before = with_ranges(info, ranges, n - 1);
        PciHostInfo {
            ranges: before.ranges.upd(before.range_count as int, range_at(ranges, n - 1)),
            range_count: (before.range_count + 1) as u8,
            ..before
        }
    }
}

/// Number of whole entries of a `ranges` property that are kept.
pub open spec fn range_entries(ranges: Seq<u8>) -> int {
    if ranges.len() / 28 < MAX_PCI_RANGES {
        ranges.len() as int / 28
    } else {
        MAX_PCI_RANGES as int
    }
}

/// What the properties of a host node say, apart from its interrupts. A host without a full
/// `reg` entry is none.
pub open spec fn host_of(props: Seq<(Seq<u8>, Seq<u8>)>) -> Option<PciHostInfo> {
    match tree::prop_of(props, dtb::text("reg"), 0) {
        Some(reg) if reg.len() >= 16 => {
            let found = PciHostInfo {
                present: 1,
                ecam_pa: double(reg, 0),
                ecam_size: double(reg, 8),
                bus_start: match tree::prop_of(props, dtb::text("bus-range"), 0) {
                    Some(buses) if buses.len() >= 8 => (dtb::word(buses, 0) as u32) as u8,
                    _ => 0,
                },
                ..PciHostInfo::none()
            };
            let ranged = match tree::prop_of(props, dtb::text("ranges"), 0) {
                Some(ranges) => with_ranges(found, ranges, range_entries(ranges)),
                None => found,
            };
            Some(
                match tree::prop_of(props, dtb::text("interrupt-map-mask"), 0) {
                    Some(mask) if mask.len() >= 16 => PciHostInfo {
                        interrupt_map_mask_hi: dtb::word(mask, 0) as u32,
                        interrupt_map_mask_pin: dtb::word(mask, 12) as u32,
                        ..ranged
                    },
                    _ => ranged,
                },
            )
        },
        _ => None,
    }
}

/// Reads what the properties of a host node say, apart from its interrupts.
pub fn host_from_props(props: &Vec<(Vec<u8>, Vec<u8>)>) -> (r: Option<PciHostInfo>)
    ensures
        r == host_of(tree::props_view(props@)),
        r is Some ==> r->0.wf() && r->0.intx_route_count == 0,
{
    let reg: &[u8] = match tree::property(props, "reg") {
        None => {
            return None;
        },
        Some(reg) => reg,
    };
    if reg.len() < 16 {
        return None;
    }
    let mut info: PciHostInfo = PciHostInfo::default();
    info.present = 1;
    info.ecam_pa = read_double(reg, 0);
    info.ecam_size = read_double(reg, 8);
    if let Some(buses) = tree::property(props, "bus-range") {
        if buses.len() >= 8 {
            info.bus_start = read_be(buses, 0) as u8;
        }
    }
    if let Some(ranges) = tree::property(props, "ranges") {
        let ghost found = info;
        let len: usize = ranges.len();
        let mut e: usize = 0;
        while e < len / 28 && e < MAX_PCI_RANGES
            invariant
                len == ranges@.len(),
                e <= MAX_PCI_RANGES,
                e <= len / 28,
                found.range_count == 0,
                found.intx_route_count == 0,
                info == with_ranges(found, ranges@, e as int),
                info.range_count == e,
                info.intx_route_count == 0,
            decreases MAX_PCI_RANGES - e,
        {
            let at: usize = 28 * e;
            info.ranges[e] =
                PciRange {
                    flags: read_be(ranges, at),
                    child_base: read_double(ranges, at + 4),
                    parent_base: read_double(ranges, at + 12),
                    size: read_double(ranges, at + 20),
                };
            info.range_count = info.range_count + 1;
            e = e + 1;
            assert(info =~= with_ranges(found, ranges@, e as int));
        }
    }
    if let Some(mask) = tree::property(props, "interrupt-map-mask") {
        if mask.len() >= 16 {
            info.interrupt_map_mask_hi = read_be(mask, 0);
            info.interrupt_map_mask_pin = read_be(mask, 12);
        }
    }
    Some(info)
}

/// One entry of an `interrupt-map`, at byte `at`: the child's address and pin, and the interrupt
/// of the controller. `addr` and `irq` are the controller's cell counts. The second part is
/// where the next entry begins.
pub open spec fn route_at(map: Seq<u8>, at: int, addr: int, irq: int) -> Option<
    (PciIntxRoute, int),
> {
    let spec_at = at + 20 + addr * 4;
    let kind = dtb::word(map, spec_at);
    let number = dtb::word(map, spec_at + 4);
    let intid = if kind == 0 {
        number + 32
    } else {
        number + 16
    };
    if irq < 3 || spec_at + irq * 4 > map.len() || kind > 1 || intid > u32::MAX {
        None
    } else {
        Some(
            (
                PciIntxRoute {
                    child_address_hi: dtb::word(map, at) as u32,
                    pin: dtb::word(map, at + 12) as u32,
                    intid: intid as u32,
                    flags: dtb::word(map, spec_at + 8) as u32,
                },
                at + (5 + addr + irq) * 4,
            ),
        )
    }
}

/// Reads one entry of an `interrupt-map`.
pub fn read_route(map: &[u8], at: usize, addr_cells: usize, irq_cells: usize) -> (r: Option<
    (PciIntxRoute, usize),
>)
    requires
        at + 20 <= map@.len(),
    ensures
        match r {
            Some((route, next)) => route_at(map@, at as int, addr_cells as int, irq_cells as int)
                == Some((route, next as int)) && at < next <= map@.len(),
            None => route_at(map@, at as int, addr_cells as int, irq_cells as int) is None,
        },
{
    let room: usize = (map.len() - at - 20) / 4;
    if irq_cells < 3 || addr_cells > room || irq_cells > room - addr_cells {
        return None;
    }
    let spec_at: usize = at + 20 + addr_cells * 4;
    let kind: u32 = read_be(map, spec_at);
    let number: u32 = read_be(map, spec_at + 4);
    let flags: u32 = read_be(map, spec_at + 8);
    let intid: Option<u32> = if kind == 0 {
        number.checked_add(32)
    } else if kind == 1 {
        number.checked_add(16)
    } else {
        None
    };
    match intid {
        None => None,
        Some(intid) => Some(
            (
                PciIntxRoute {
                    child_address_hi: read_be(map, at),
                    pin: read_be(map, at + 12),
                    intid,
                    flags,
                },
                spec_at + irq_cells * 4,
            ),
        ),
    }
}

/// The cell counts of an interrupt controller node: address cells, and interrupt cells.
pub open spec fn controller_of(node: (Seq<(Seq<u8>, Seq<u8>)>, usize)) -> Option<(int, int)> {
    match tree::prop_of(node.0, dtb::text("#interrupt-cells"), 0) {
        Some(value) if value.len() >= 4 => Some((node.1 as int, dtb::word(value, 0))),
        _ => None,
    }
}

/// Reads the cell counts of an interrupt controller node.
pub fn controller_cells(props: &Vec<(Vec<u8>, Vec<u8>)>, addr_cells: usize) -> (r: Option<
    (usize, usize),
>)
    ensures
        match r {
            Some((addr, irq)) => controller_of((tree::props_view(props@), addr_cells)) == Some(
                (addr as int, irq as int),
            ),
            None => controller_of((tree::props_view(props@), addr_cells)) is None,
        },
{
    match tree::property(props, "#interrupt-cells") {
        Some(value) => if value.len() >= 4 {
            Some((addr_cells, read_be(value, 0) as usize))
        } else {
            None
        },
        None => None,
    }
}

/// The info with one more interrupt route.
pub open spec fn with_route(info: PciHostInfo, route: PciIntxRoute) -> PciHostInfo {
    PciHostInfo {
        intx_routes: info.intx_routes.upd(info.intx_route_count as int, route),
        intx_route_count: (info.intx_route_count + 1) as u8,
        ..info
    }
}

/// The entries of an `interrupt-map` from byte `at` on. Each names its controller by a handle
/// that the device tree resolves.
pub open spec fn routes_from(blob: Seq<u8>, map: Seq<u8>, at: int, info: PciHostInfo) -> Option<
    PciHostInfo,
>
    decreases map.len() - at,
{
    if at < 0 || at + 20 > map.len() || info.intx_route_count >= MAX_PCI_INTX_ROUTES {
        Some(info)
    } else {
        let phandle = dtb::word(map, at + 16) as u32;
        if !tree::reachable(blob, phandle) {
            None
        } else {
            match tree::fdt_phandle(blob, phandle) {
                None => None,
                Some(node) => match controller_of(node) {
                    None => None,
                    Some((addr, irq)) => match route_at(map, at, addr, irq) {
                        Some((route, next)) if next > at => routes_from(
                            blob,
                            map,
                            next,
                            with_route(info, route),
                        ),
                        _ => None,
                    },
                },
            }
        }
    }
}

/// The PCI host of a device tree.
pub open spec fn host_in(blob: Seq<u8>) -> Option<PciHostInfo> {
    if !tree::searchable(blob, dtb::text("pci-host-ecam-generic")) {
        None
    } else {
        match tree::fdt_compatible(blob, "pci-host-ecam-generic"@) {
            None => None,
            Some(props) => match host_of(props) {
                None => None,
                Some(info) => match tree::prop_of(props, dtb::text("interrupt-map"), 0) {
                    None => Some(info),
                    Some(map) => routes_from(blob, map, 0, info),
                },
            },
        }
    }
}

fn read_routes(blob: &[u8], map: &[u8], start: PciHostInfo) -> (r: Option<PciHostInfo>)
    requires
        start.wf(),
    ensures
        r == routes_from(blob@, map@, 0, start),
        r is Some ==> r->0.wf(),
{
    let mut info: PciHostInfo = start;
    let mut at: usize = 0;
    let len: usize = map.len();
    while len - at >= 20 && (info.intx_route_count as usize) < MAX_PCI_INTX_ROUTES
        invariant
            len == map@.len(),
            at <= len,
            info.wf(),
            routes_from(blob@, map@, at as int, info) == routes_from(blob@, map@, 0, start),
        decreases len - at,
    {
        let phandle: u32 = read_be(map, at + 16);
        if !tree::can_reach(blob, phandle) {
            return None;
        }
        let (props, addr_cells): (Vec<(Vec<u8>, Vec<u8>)>, usize) = match tree::phandle_node(
            blob,
            phandle,
        ) {
            None => {
                return None;
            },
            Some(node) => node,
        };
        let (addr, irq): (usize, usize) = match controller_cells(&props, addr_cells) {
            None => {
                return None;
            },
            Some(counts) => counts,
        };
        match read_route(map, at, addr, irq) {
            None => {
                return None;
            },
            Some((route, next)) => {
                let place: usize = info.intx_route_count as usize;
                let ghost before = info;
                info.intx_routes[place] = route;
                info.intx_route_count = info.intx_route_count + 1;
                assert(info =~= with_route(before, route));
                at = next;
            },
        }
    }
    Some(info)
}

/// Finds the generic PCI host of a device tree: its configuration space, its windows and its
/// interrupt routes. A blob in which a search meets a fault has none.
pub fn from_dtb(blob: &[u8]) -> (r: Option<PciHostInfo>)
    ensures
        r == host_in(blob@),
        r is Some ==> r->0.wf(),
{
    if !tree::can_search(blob, "pci-host-ecam-generic") {
        return None;
    }
    let props: Vec<(Vec<u8>, Vec<u8>)> = match tree::compatible_node(
        blob,
        "pci-host-ecam-generic",
    ) {
        None => {
            return None;
        },
        Some(props) => props,
    };
    let info: PciHostInfo = match host_from_props(&props) {
        None => {
            return None;
        },
        Some(info) => info,
    };
    match tree::property(&props, "interrupt-map") {
        None => Some(info),
        Some(map) => read_routes(blob, map, info),
    }
}

} // verus!
