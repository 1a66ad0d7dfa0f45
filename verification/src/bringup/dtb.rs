//! What the monitor reads from a device tree. It takes addresses as they stand, without the
//! translations of the buses around a device.
use crate::boot::dtb::{self, collect_ranges, read_be, Event, RegRange, Token};
use crate::bringup::protect::{self, Regions};
use vstd::prelude::*;

verus! {

/// The size that the header gives.
pub fn total_size(blob: &[u8]) -> (r: Option<u64>)
    ensures
        r == if blob@.len() >= 8 && dtb::word(blob@, 0) == dtb::FDT_MAGIC {
            Some(dtb::word(blob@, 4) as u64)
        } else {
            None
        },
{
    if blob.len() < 8 || read_be(blob, 0) != dtb::FDT_MAGIC {
        return None;
    }
    Some(read_be(blob, 4) as u64)
}

/// A walk for the first console UART. The cells are the last ones seen, and two again after the
/// end of any node.
#[derive(Clone, Copy)]
#[verifier::ext_equal]
pub struct FlatUart {
    pub addr_cells: u32,
    pub size_cells: u32,
    pub compatible: bool,
    pub reg: Option<RegRange>,
}

impl FlatUart {
    pub open spec fn start() -> FlatUart {
        FlatUart { addr_cells: 2, size_cells: 2, compatible: false, reg: None }
    }

    /// The first range of a `reg` property whose value starts at byte `at` of the blob.
    pub open spec fn first_range(self, blob: Seq<u8>, at: int) -> Option<RegRange> {
        if self.addr_cells == 0 || self.size_cells == 0 {
            None
        } else {
            match (
                dtb::number_at(blob, at, self.addr_cells == 2),
                dtb::number_at(blob, at + 4 * self.addr_cells, self.size_cells == 2),
            ) {
                (Some(base), Some(size)) if size != 0 => Some(RegRange { base, size }),
                _ => None,
            }
        }
    }

    pub open spec fn with_property(self, blob: Seq<u8>, name: Seq<u8>, value: Seq<u8>, at: int)
        -> FlatUart {
        if name == dtb::text("#address-cells") && value.len() == 4 {
            FlatUart { addr_cells: dtb::word(value, 0) as u32, ..self }
        } else if name == dtb::text("#size-cells") && value.len() == 4 {
            FlatUart { size_cells: dtb::word(value, 0) as u32, ..self }
        } else if name == dtb::text("compatible") {
            FlatUart { compatible: dtb::lists(value, dtb::text("arm,pl011")), ..self }
        } else if name == dtb::text("reg") && self.reg is None {
            FlatUart { reg: self.first_range(blob, at), ..self }
        } else {
            self
        }
    }

    /// What the walk finds from event `k` on.
    pub open spec fn run(self, blob: Seq<u8>, events: Seq<Event>, k: int) -> Option<RegRange>
        decreases events.len() - k,
    {
        if k < 0 || k >= events.len() {
            None
        } else {
            match events[k] {
                Event::End => None,
                Event::Bad => None,
                Event::Nop => self.run(blob, events, k + 1),
                Event::Begin(_) => (FlatUart { compatible: false, reg: None, ..self }).run(
                    blob,
                    events,
                    k + 1,
                ),
                Event::EndNode => if self.compatible && self.reg is Some {
                    self.reg
                } else {
                    FlatUart::start().run(blob, events, k + 1)
                },
                Event::Prop { name, value, at } => self.with_property(blob, name, value, at).run(
                    blob,
                    events,
                    k + 1,
                ),
            }
        }
    }
}

/// The range of the first console UART in a blob.
pub open spec fn flat_uart(blob: Seq<u8>) -> Option<RegRange> {
    match dtb::events(blob) {
        None => None,
        Some(events) => FlatUart::start().run(blob, events, 0),
    }
}

fn read_first_reg(walk: &FlatUart, blob: &[u8], at: usize) -> (r: Option<RegRange>)
    requires
        at <= blob@.len(),
    ensures
        r == walk.first_range(blob@, at as int),
{
    if walk.addr_cells == 0 || walk.size_cells == 0 {
        return None;
    }
    let blob_len: usize = blob.len();
    let base: Option<u64> = dtb::read_number(blob, at as u64, walk.addr_cells == 2);
    let size_at: u64 = match (at as u64).checked_add(4 * (walk.addr_cells as u64)) {
        None => {
            return None;
        },
        Some(size_at) => size_at,
    };
    let size: Option<u64> = dtb::read_number(blob, size_at, walk.size_cells == 2);
    match (base, size) {
        (Some(base), Some(size)) => if size == 0 {
            None
        } else {
            Some(RegRange { base, size })
        },
        _ => None,
    }
}

/// The registers of the first UART, as the device tree writes them.
pub fn find_pl011_reg(blob: &[u8]) -> (r: Option<RegRange>)
    ensures
        r == flat_uart(blob@),
{
    let blob_len: usize = blob.len();
    let list: Vec<Token> = match dtb::tokens(blob) {
        None => {
            return None;
        },
        Some(list) => list,
    };
    let mut walk = FlatUart { addr_cells: 2, size_cells: 2, compatible: false, reg: None };
    let mut k: usize = 0;
    while k < list.len()
        invariant
            k <= list@.len(),
            dtb::props_inside(blob@, dtb::views(list@)),
            walk.run(blob@, dtb::views(list@), k as int) == flat_uart(blob@),
        decreases list@.len() - k,
    {
        assert(dtb::views(list@)[k as int] == list@[k as int]@);
        match &list[k] {
            Token::End => {
                return None;
            },
            Token::Bad => {
                return None;
            },
            Token::Nop => {},
            Token::Begin(_) => {
                walk.compatible = false;
                walk.reg = None;
            },
            Token::EndNode => {
                if walk.compatible && walk.reg.is_some() {
                    return walk.reg;
                }
                walk = FlatUart { addr_cells: 2, size_cells: 2, compatible: false, reg: None };
            },
            Token::Prop { name, value, at } => {
                if dtb::is_text(name, "#address-cells") && value.len() == 4 {
                    walk.addr_cells = read_be(value, 0);
                } else if dtb::is_text(name, "#size-cells") && value.len() == 4 {
                    walk.size_cells = read_be(value, 0);
                } else if dtb::is_text(name, "compatible") {
                    walk.compatible = dtb::prop_contains_string(value, "arm,pl011");
                } else if dtb::is_text(name, "reg") && walk.reg.is_none() {
                    walk.reg = read_first_reg(&walk, blob, *at);
                }
            },
        }
        k = k + 1;
    }
    None
}

/// The windows after `ranges` up to `k` were registered.
pub open spec fn all_registered(regions: Regions, ranges: Seq<RegRange>, k: int) -> Regions
    decreases k,
{
    if k <= 0 {
        regions
    } else {
        all_registered(regions, ranges, k - 1).registered(ranges[k - 1].base, ranges[k - 1].size)
    }
}

fn register_all(regions: &mut Regions, ranges: &Vec<RegRange>)
    requires
        old(regions).wf(),
    ensures
        *final(regions) == all_registered(*old(regions), ranges@, ranges@.len() as int),
        final(regions).wf(),
{
    let mut k: usize = 0;
    while k < ranges.len()
        invariant
            k <= ranges@.len(),
            regions.wf(),
            *regions == all_registered(*old(regions), ranges@, k as int),
        decreases ranges@.len() - k,
    {
        protect::register(regions, ranges[k].base, ranges[k].size);
        k = k + 1;
    }
}

/// Registers every device range of the blob.
pub fn parse(blob: &[u8], regions: &mut Regions)
    requires
        old(regions).wf(),
    ensures
        *final(regions) == all_registered(
            *old(regions),
            dtb::device_ranges(blob@),
            dtb::device_ranges(blob@).len() as int,
        ),
        final(regions).wf(),
{
    let ranges: Vec<RegRange> = collect_ranges(blob);
    register_all(regions, &ranges);
}

} // verus!
