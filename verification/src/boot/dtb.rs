//! Flattened device tree: from the bytes of a blob to what the kernel has to know of the
//! hardware.
//!
//! A blob is first read as a sequence of events: a node begins, a node has a property, a node
//! ends. Each search is a walk over these events. A blob that breaks off in the middle, or that
//! holds an unknown token, ends in the event `Bad`.
use crate::resource::protect::{self, ProtectTable};
use crate::util::ArrayUpdate;
use vstd::prelude::*;
use vstd::slice::slice_subrange;

verus! {

pub const FDT_MAGIC: u32 = 0xd00dfeed;

pub const FDT_BEGIN_NODE: u32 = 1;

pub const FDT_END_NODE: u32 = 2;

pub const FDT_PROP: u32 = 3;

pub const FDT_NOP: u32 = 4;

pub const FDT_END: u32 = 9;

/// Deepest nesting of nodes that the searches follow.
pub const MAX_DEPTH: usize = 24;

/// Number of entries of a `ranges` property that are used.
pub const MAX_RANGES: usize = 8;

/// Capacity of a node path.
pub const MAX_PATH: usize = 192;

/// A range of physical addresses.
#[derive(Clone, Copy, Debug, PartialEq, Eq, Structural)]
pub struct RegRange {
    pub base: u64,
    pub size: u64,
}

/// An interrupt of the interrupt controller and its trigger flags.
#[derive(Clone, Copy, Debug, PartialEq, Eq, Structural)]
pub struct IrqSpec {
    pub intid: u32,
    pub flags: u32,
}

/// What the structure block says next.
#[verifier::ext_equal]
pub enum Event {
    /// A node of this name begins.
    Begin(Seq<u8>),
    /// The open node has this property; its value starts at offset `at` of the blob.
    Prop { name: Seq<u8>, value: Seq<u8>, at: int },
    EndNode,
    End,
    Nop,
    /// The blob breaks off, or the token is unknown.
    Bad,
}

/// An event with its texts borrowed from the blob.
pub enum Token<'a> {
    Begin(&'a [u8]),
    Prop { name: &'a [u8], value: &'a [u8], at: usize },
    EndNode,
    End,
    Nop,
    Bad,
}

impl<'a> View for Token<'a> {
    type V = Event;

    open spec fn view(&self) -> Event {
        match *self {
            Token::Begin(name) => Event::Begin(name@),
            Token::Prop { name, value, at } => Event::Prop {
                name: name@,
                value: value@,
                at: at as int,
            },
            Token::EndNode => Event::EndNode,
            Token::End => Event::End,
            Token::Nop => Event::Nop,
            Token::Bad => Event::Bad,
        }
    }
}

/// The big-endian word at offset `at`.
pub open spec fn word(bytes: Seq<u8>, at: int) -> int {
    bytes[at] * 0x100_0000 + bytes[at + 1] * 0x1_0000 + bytes[at + 2] * 0x100 + bytes[at + 3]
}

pub fn read_be(bytes: &[u8], at: usize) -> (r: u32)
    requires
        at + 4 <= bytes@.len(),
    ensures
        r == word(bytes@, at as int),
{
    let b0: u32 = bytes[at] as u32;
    let b1: u32 = bytes[at + 1] as u32;
    let b2: u32 = bytes[at + 2] as u32;
    let b3: u32 = bytes[at + 3] as u32;
    b0 * 0x100_0000 + b1 * 0x1_0000 + b2 * 0x100 + b3
}

/// The first zero byte from `from` on.
pub open spec fn nul_from(bytes: Seq<u8>, from: int) -> Option<int>
    decreases bytes.len() - from,
{
    if from < 0 || from >= bytes.len() {
        None
    } else if bytes[from] == 0 {
        Some(from)
    } else {
        nul_from(bytes, from + 1)
    }
}

pub(crate) fn find_nul(bytes: &[u8], from: usize) -> (r: Option<usize>)
    ensures
        match r {
            Some(end) => nul_from(bytes@, from as int) == Some(end as int) && from <= end
                < bytes@.len(),
            None => nul_from(bytes@, from as int) is None,
        },
{
    let mut i: usize = from;
    while i < bytes.len()
        invariant
            from <= i,
            nul_from(bytes@, from as int) == nul_from(bytes@, i as int),
        decreases bytes@.len() - i,
    {
        if bytes[i] == 0 {
            return Some(i);
        }
        i = i + 1;
    }
    None
}

/// An offset after padding, no further than the end of the blob.
pub open spec fn clipped(bytes: Seq<u8>, next: int) -> int {
    if next < bytes.len() {
        next
    } else {
        bytes.len() as int
    }
}

/// The event at offset `pos` of the structure block and the offset of the one after it.
/// `strings` is the offset of the strings block.
pub open spec fn event_at(blob: Seq<u8>, strings: int, pos: int) -> (Event, int) {
    if pos + 4 > blob.len() {
        (Event::Bad, pos)
    } else if word(blob, pos) == FDT_BEGIN_NODE {
        match nul_from(blob, pos + 4) {
            None => (Event::Bad, pos),
            Some(end) => {
                let len = end - (pos + 4);
                (
                    Event::Begin(blob.subrange(pos + 4, end)),
                    clipped(blob, pos + 4 + ((len + 4) / 4) * 4),
                )
            },
        }
    } else if word(blob, pos) == FDT_END_NODE {
        (Event::EndNode, pos + 4)
    } else if word(blob, pos) == FDT_PROP {
        if pos + 12 > blob.len() {
            (Event::Bad, pos)
        } else {
            let len = word(blob, pos + 4);
            let name = strings + word(blob, pos + 8);
            match nul_from(blob, name) {
                Some(end) if pos + 12 + len <= blob.len() => (
                    Event::Prop {
                        name: blob.subrange(name, end),
                        value: blob.subrange(pos + 12, pos + 12 + len),
                        at: pos + 12,
                    },
                    clipped(blob, pos + 12 + ((len + 3) / 4) * 4),
                ),
                _ => (Event::Bad, pos),
            }
        }
    } else if word(blob, pos) == FDT_NOP {
        (Event::Nop, pos + 4)
    } else if word(blob, pos) == FDT_END {
        (Event::End, pos + 4)
    } else {
        (Event::Bad, pos)
    }
}

/// Whether an event is the last one.
pub open spec fn is_last(event: Event) -> bool {
    event is End || event is Bad
}

/// All events from offset `pos` on.
pub open spec fn events_from(blob: Seq<u8>, strings: int, pos: int) -> Seq<Event>
    decreases blob.len() - pos,
{
    let (event, next) = event_at(blob, strings, pos);
    if is_last(event) || next <= pos || pos < 0 || next > blob.len() {
        seq![event]
    } else {
        seq![event] + events_from(blob, strings, next)
    }
}

/// The offsets of the structure block and of the strings block, if the blob begins with a
/// device tree header.
pub open spec fn blocks(blob: Seq<u8>) -> Option<(int, int)> {
    if blob.len() < 16 || word(blob, 0) != FDT_MAGIC {
        None
    } else {
        Some((word(blob, 8), word(blob, 12)))
    }
}

/// The events of a blob.
pub open spec fn events(blob: Seq<u8>) -> Option<Seq<Event>> {
    match blocks(blob) {
        None => None,
        Some((structure, strings)) => Some(events_from(blob, strings, structure)),
    }
}

pub(crate) fn token_at<'a>(blob: &'a [u8], strings: usize, pos: usize) -> (r: (Token<'a>, usize))
    ensures
        (r.0@, r.1 as int) == event_at(blob@, strings as int, pos as int),
        is_last(r.0@) || pos < r.1 <= blob@.len(),
{
    if pos > blob.len() || blob.len() - pos < 4 {
        return (Token::Bad, pos);
    }
    let token: u32 = read_be(blob, pos);
    if token == FDT_BEGIN_NODE {
        let start: usize = pos + 4;
        match find_nul(blob, start) {
            None => (Token::Bad, pos),
            Some(end) => {
                let pad: usize = 4 - (end - start) % 4;
                let next: usize = if blob.len() - end <= pad {
                    blob.len()
                } else {
                    end + pad
                };
                (Token::Begin(slice_subrange(blob, start, end)), next)
            },
        }
    } else if token == FDT_END_NODE {
        (Token::EndNode, pos + 4)
    } else if token == FDT_PROP {
        if blob.len() - pos < 12 {
            return (Token::Bad, pos);
        }
        let len: usize = read_be(blob, pos + 4) as usize;
        let name_offset: usize = read_be(blob, pos + 8) as usize;
        let at: usize = pos + 12;
        if strings > blob.len() || name_offset > blob.len() - strings || len > blob.len() - at {
            return (Token::Bad, pos);
        }
        let name: usize = strings + name_offset;
        match find_nul(blob, name) {
            None => (Token::Bad, pos),
            Some(end) => {
                let value_end: usize = at + len;
                let pad: usize = (4 - len % 4) % 4;
                let next: usize = if blob.len() - value_end <= pad {
                    blob.len()
                } else {
                    value_end + pad
                };
                (
                    Token::Prop {
                        name: slice_subrange(blob, name, end),
                        value: slice_subrange(blob, at, value_end),
                        at,
                    },
                    next,
                )
            },
        }
    } else if token == FDT_NOP {
        (Token::Nop, pos + 4)
    } else if token == FDT_END {
        (Token::End, pos + 4)
    } else {
        (Token::Bad, pos)
    }
}

/// The values of all properties lie inside the blob.
pub open spec fn props_inside(blob: Seq<u8>, events: Seq<Event>) -> bool {
    forall|k: int|
        0 <= k < events.len() ==> match #[trigger] events[k] {
            Event::Prop { name, value, at } => 0 <= at && at + value.len() <= blob.len(),
            _ => true,
        }
}

pub open spec fn views<'a>(tokens: Seq<Token<'a>>) -> Seq<Event> {
    tokens.map_values(|token: Token<'a>| token@)
}

/// Reads a blob as a sequence of events.
pub fn tokens<'a>(blob: &'a [u8]) -> (r: Option<Vec<Token<'a>>>)
    ensures
        match r {
            Some(tokens) => events(blob@) == Some(views(tokens@)) && props_inside(
                blob@,
                views(tokens@),
            ),
            None => events(blob@) is None,
        },
{
    if blob.len() < 16 || read_be(blob, 0) != FDT_MAGIC {
        return None;
    }
    let start: usize = read_be(blob, 8) as usize;
    let strings: usize = read_be(blob, 12) as usize;
    let mut out: Vec<Token<'a>> = Vec::new();
    let mut pos: usize = start;
    loop
        invariant
            events_from(blob@, strings as int, start as int) == views(out@) + events_from(
                blob@,
                strings as int,
                pos as int,
            ),
            blocks(blob@) == Some((start as int, strings as int)),
            props_inside(blob@, views(out@)),
        decreases blob@.len() - pos,
    {
        let (token, next) = token_at(blob, strings, pos);
        let last: bool = match token {
            Token::End => true,
            Token::Bad => true,
            _ => false,
        };
        let ghost before = out@;
        out.push(token);
        proof {
            assert(views(out@) =~= views(before).push(token@));
            assert(events_from(blob@, strings as int, start as int) =~= if last {
                views(out@)
            } else {
                views(out@) + events_from(blob@, strings as int, next as int)
            });
        }
        if last {
            return Some(out);
        }
        pos = next;
    }
}

/// The bytes of a text.
pub open spec fn text(s: &str) -> Seq<u8> {
    vstd::utf8::encode_utf8(s@)
}

pub(crate) fn same(a: &[u8], b: &[u8]) -> (r: bool)
    ensures
        r == (a@ == b@),
{
    if a.len() != b.len() {
        return false;
    }
    let mut i: usize = 0;
    while i < a.len()
        invariant
            i <= a@.len(),
            a@.len() == b@.len(),
            forall|j: int| 0 <= j < i ==> a@[j] == b@[j],
        decreases a@.len() - i,
    {
        if a[i] != b[i] {
            assert(a@[i as int] != b@[i as int]);
            return false;
        }
        i = i + 1;
    }
    assert(a@ =~= b@);
    true
}

pub(crate) fn is_text(a: &[u8], s: &str) -> (r: bool)
    ensures
        r == (a@ == text(s)),
{
    same(a, s.as_bytes())
}

pub open spec fn begins_with(bytes: Seq<u8>, start: Seq<u8>) -> bool {
    start.len() <= bytes.len() && bytes.take(start.len() as int) == start
}

pub(crate) fn starts_with(a: &[u8], s: &str) -> (r: bool)
    ensures
        r == begins_with(a@, text(s)),
{
    let b: &[u8] = s.as_bytes();
    if b.len() > a.len() {
        return false;
    }
    same(slice_subrange(a, 0, b.len()), b)
}

/// Bytes `[start, end)` are one of the zero-terminated strings of a list.
pub open spec fn is_item(list: Seq<u8>, start: int, end: int) -> bool {
    &&& 0 <= start < end <= list.len()
    &&& start == 0 || list[start - 1] == 0
    &&& end == list.len() || list[end] == 0
    &&& forall|i: int| start <= i < end ==> list[i] != 0
}

/// A list of zero-terminated strings holds `item`.
pub open spec fn lists(list: Seq<u8>, item: Seq<u8>) -> bool {
    exists|start: int, end: int| #[trigger]
        is_item(list, start, end) && list.subrange(start, end) == item
}

/// Whether a list of zero-terminated strings, such as a `compatible` property, holds `expected`.
pub fn prop_contains_string(list: &[u8], expected: &str) -> (r: bool)
    ensures
        r == lists(list@, text(expected)),
{
    let mut start: usize = 0;
    while start < list.len()
        invariant
            start == 0 || start > list@.len() || list@[start - 1] == 0,
            forall|s: int, e: int|
                0 <= s < start && #[trigger] is_item(list@, s, e) ==> list@.subrange(s, e) != text(
                    expected,
                ),
        decreases list@.len() + 1 - start,
    {
        let mut end: usize = start;
        while end < list.len() && list[end] != 0
            invariant
                start <= end <= list@.len(),
                forall|i: int| start <= i < end ==> list@[i] != 0,
            decreases list@.len() - end,
        {
            end = end + 1;
        }
        if end > start && is_text(slice_subrange(list, start, end), expected) {
            assert(is_item(list@, start as int, end as int));
            return true;
        }
        proof {
            assert forall|s: int, e: int|
                0 <= s < end + 1 && #[trigger] is_item(list@, s, e) implies list@.subrange(s, e)
                != text(expected) by {
                if s > start {
                    assert(list@[s - 1] != 0);
                } else if s == start {
                    if e < end {
                        assert(list@[e] != 0);
                    } else if e > end {
                        assert(list@[end as int] != 0);
                    }
                }
            }
        }
        if end == list.len() {
            assert(!lists(list@, text(expected)));
            return false;
        }
        start = end + 1;
    }
    false
}

pub open spec fn is_pl011(compatible: Seq<u8>) -> bool {
    lists(compatible, text("arm,pl011")) || lists(compatible, text("arm,pl011-axi")) || lists(
        compatible,
        text("arm,sbsa-uart"),
    )
}

pub fn prop_contains_pl011(compatible: &[u8]) -> (r: bool)
    ensures
        r == is_pl011(compatible@),
{
    prop_contains_string(compatible, "arm,pl011") || prop_contains_string(
        compatible,
        "arm,pl011-axi",
    ) || prop_contains_string(compatible, "arm,sbsa-uart")
}

pub open spec fn is_gic(compatible: Seq<u8>) -> bool {
    lists(compatible, text("arm,cortex-a15-gic")) || lists(compatible, text("arm,gic-400"))
}

pub fn prop_contains_gic(compatible: &[u8]) -> (r: bool)
    ensures
        r == is_gic(compatible@),
{
    prop_contains_string(compatible, "arm,cortex-a15-gic") || prop_contains_string(
        compatible,
        "arm,gic-400",
    )
}

/// Size of a whole blob as its header gives it, if the header is sound.
pub open spec fn sound_size(blob: Seq<u8>) -> Option<u64> {
    let total = word(blob, 4);
    let structure = word(blob, 8);
    let strings = word(blob, 12);
    let strings_len = word(blob, 32);
    let structure_len = word(blob, 36);
    if blob.len() < 40 || word(blob, 0) != FDT_MAGIC || total < 40 || structure < 40 || strings
        < 40 || structure + structure_len > total || strings + strings_len > total {
        None
    } else {
        Some(total as u64)
    }
}

/// The total size in the header, if the header is complete and both blocks lie inside it.
pub fn total_size(blob: &[u8]) -> (r: Option<u64>)
    ensures
        r == sound_size(blob@),
{
    if blob.len() < 40 || read_be(blob, 0) != FDT_MAGIC {
        return None;
    }
    let total: u64 = read_be(blob, 4) as u64;
    let structure: u64 = read_be(blob, 8) as u64;
    let strings: u64 = read_be(blob, 12) as u64;
    let strings_len: u64 = read_be(blob, 32) as u64;
    let structure_len: u64 = read_be(blob, 36) as u64;
    if total < 40 || structure < 40 || strings < 40 || structure + structure_len > total || strings
        + strings_len > total {
        return None;
    }
    Some(total)
}

/// The number in `n` cells from cell `first` on: the last two of them count.
pub open spec fn cells(value: Seq<u8>, first: int, n: int) -> int {
    if n <= 0 {
        0
    } else if n == 1 {
        word(value, 4 * first)
    } else {
        word(value, 4 * (first + n - 2)) * 0x1_0000_0000 + word(value, 4 * (first + n - 1))
    }
}

pub(crate) fn read_cells(value: &[u8], first: usize, n: usize) -> (r: u64)
    requires
        4 * (first + n) <= value@.len(),
    ensures
        r == cells(value@, first as int, n as int),
{
    let len: usize = value.len();
    assert(4 * (first + n) <= len);
    if n == 0 {
        0
    } else if n == 1 {
        read_be(value, 4 * first) as u64
    } else {
        let high: u64 = read_be(value, 4 * (first + n - 2)) as u64;
        let low: u64 = read_be(value, 4 * (first + n - 1)) as u64;
        high * 0x1_0000_0000 + low
    }
}

/// How the addresses below a node are written, and how they become addresses of its parent.
#[verifier::ext_equal]
pub struct BusView {
    pub addr_cells: u32,
    pub size_cells: u32,
    /// The value of the `ranges` property.
    pub ranges: Option<Seq<u8>>,
}

pub struct Bus<'a> {
    pub addr_cells: u32,
    pub size_cells: u32,
    pub ranges: Option<&'a [u8]>,
}

impl<'a> View for Bus<'a> {
    type V = BusView;

    open spec fn view(&self) -> BusView {
        BusView {
            addr_cells: self.addr_cells,
            size_cells: self.size_cells,
            ranges: match self.ranges {
                Some(raw) => Some(raw@),
                None => None,
            },
        }
    }
}

pub open spec fn bus_views<'a>(buses: Seq<Bus<'a>>) -> Seq<BusView> {
    buses.map_values(|bus: Bus<'a>| bus@)
}

impl BusView {
    pub open spec fn initial() -> BusView {
        BusView { addr_cells: 2, size_cells: 1, ranges: None }
    }
}

/// One entry of a `ranges` property: `size` child addresses from `child` on are the parent's
/// addresses from `parent` on.
#[derive(Clone, Copy, Debug, PartialEq, Eq, Structural)]
pub struct RangeMap {
    pub child: u64,
    pub parent: u64,
    pub size: u64,
}

impl RangeMap {
    pub open spec fn covers(self, addr: int) -> bool {
        self.child <= addr < self.child + self.size
    }
}

/// Number of cells of one entry of the `ranges` of bus `index`.
pub open spec fn range_cells(buses: Seq<BusView>, index: int) -> int {
    buses[index].addr_cells + buses[index - 1].addr_cells + buses[index].size_cells
}

/// Number of entries that count. The root has no parent to translate to.
pub open spec fn range_count(buses: Seq<BusView>, index: int) -> int {
    if index <= 0 || buses[index].ranges is None || range_cells(buses, index) == 0 {
        0
    } else {
        let entries = (buses[index].ranges->0.len() as int / 4) / range_cells(buses, index);
        if entries < MAX_RANGES {
            entries
        } else {
            MAX_RANGES as int
        }
    }
}

pub open spec fn range_entry(buses: Seq<BusView>, index: int, e: int) -> RangeMap {
    let raw = buses[index].ranges->0;
    let own = buses[index].addr_cells as int;
    let outer = buses[index - 1].addr_cells as int;
    let first = e * range_cells(buses, index);
    RangeMap {
        child: cells(raw, first, own) as u64,
        parent: cells(raw, first + own, outer) as u64,
        size: cells(raw, first + own + outer, buses[index].size_cells as int) as u64,
    }
}

/// The first entry from `e` on that covers an address.
pub open spec fn covering(buses: Seq<BusView>, index: int, addr: int, e: int) -> Option<int>
    decreases range_count(buses, index) - e,
{
    if e < 0 || e >= range_count(buses, index) {
        None
    } else if range_entry(buses, index, e).covers(addr) {
        Some(e)
    } else {
        covering(buses, index, addr, e + 1)
    }
}

/// An address on bus `index` as an address on the bus around it. Without usable entries the two
/// are the same. No address comes out that no entry covers or that does not fit.
pub open spec fn through_bus(buses: Seq<BusView>, index: int, addr: int) -> Option<int> {
    if range_count(buses, index) == 0 {
        Some(addr)
    } else {
        match covering(buses, index, addr, 0) {
            None => None,
            Some(e) => {
                let entry = range_entry(buses, index, e);
                let outer = entry.parent + (addr - entry.child);
                if outer > u64::MAX {
                    None
                } else {
                    Some(outer)
                }
            },
        }
    }
}

/// An address on bus `index` as a physical address of the processor.
pub open spec fn to_cpu(buses: Seq<BusView>, index: int, addr: int) -> Option<int>
    decreases index,
{
    match through_bus(buses, index, addr) {
        None => None,
        Some(outer) => if index <= 0 {
            Some(outer)
        } else {
            to_cpu(buses, index - 1, outer)
        },
    }
}

proof fn lemma_range_fits(len: int, each: int, e: int)
    requires
        each > 0,
        0 <= e < (len / 4) / each,
    ensures
        0 <= e * each,
        4 * (e * each + each) <= len,
{
    let entries = (len / 4) / each;
    vstd::arithmetic::div_mod::lemma_fundamental_div_mod(len / 4, each);
    assert(e * each + each <= entries * each) by (nonlinear_arith)
        requires
            0 <= e < entries,
            each > 0,
    ;
    assert(0 <= e * each) by (nonlinear_arith)
        requires
            0 <= e,
            each > 0,
    ;
    assert(entries * each == each * entries) by (nonlinear_arith);
}

proof fn lemma_cells_fit(value: Seq<u8>, first: int, n: int)
    requires
        0 <= first,
        0 <= n,
        4 * (first + n) <= value.len(),
    ensures
        0 <= cells(value, first, n) <= u64::MAX,
{
}

fn translate_one_bus<'a>(buses: &Vec<Bus<'a>>, index: usize, addr: u64) -> (r: Option<u64>)
    requires
        index < buses@.len(),
    ensures
        match r {
            Some(outer) => through_bus(bus_views(buses@), index as int, addr as int) == Some(
                outer as int,
            ),
            None => through_bus(bus_views(buses@), index as int, addr as int) is None,
        },
{
    let ghost all = bus_views(buses@);
    assert(all[index as int] == buses@[index as int]@);
    if index == 0 {
        return Some(addr);
    }
    assert(all[index - 1] == buses@[index - 1]@);
    let own: usize = buses[index].addr_cells as usize;
    let outer: usize = buses[index - 1].addr_cells as usize;
    let sizes: usize = buses[index].size_cells as usize;
    match buses[index].ranges {
        None => Some(addr),
        Some(raw) => {
            let words: u64 = (raw.len() / 4) as u64;
            let each: u64 = own as u64 + outer as u64 + sizes as u64;
            assert(each == range_cells(all, index as int));
            if each == 0 || words / each == 0 {
                return Some(addr);
            }
            let mut e: u64 = 0;
            while e < words / each && e < MAX_RANGES as u64
                invariant
                    e <= MAX_RANGES,
                    raw@.len() <= usize::MAX,
                    0 < index < buses@.len(),
                    all == bus_views(buses@),
                    all[index as int].ranges == Some(raw@),
                    own == all[index as int].addr_cells,
                    outer == all[index - 1].addr_cells,
                    sizes == all[index as int].size_cells,
                    each == range_cells(all, index as int),
                    each > 0,
                    words == raw@.len() / 4,
                    words / each != 0,
                    range_count(all, index as int) == if words / each < MAX_RANGES {
                        (words / each) as int
                    } else {
                        MAX_RANGES as int
                    },
                    covering(all, index as int, addr as int, 0) == covering(
                        all,
                        index as int,
                        addr as int,
                        e as int,
                    ),
                decreases MAX_RANGES - e,
            {
                proof {
                    lemma_range_fits(raw@.len() as int, each as int, e as int);
                    lemma_cells_fit(raw@, (e * each) as int, own as int);
                    lemma_cells_fit(raw@, (e * each) as int + own, outer as int);
                    lemma_cells_fit(raw@, (e * each) as int + own + outer, sizes as int);
                }
                let first: usize = (e * each) as usize;
                let child: u64 = read_cells(raw, first, own);
                let parent: u64 = read_cells(raw, first + own, outer);
                let size: u64 = read_cells(raw, first + own + outer, sizes);
                assert(range_entry(all, index as int, e as int) == (RangeMap {
                    child,
                    parent,
                    size,
                }));
                if addr >= child && addr - child < size {
                    return parent.checked_add(addr - child);
                }
                e = e + 1;
            }
            None
        },
    }
}

fn translate_to_cpu<'a>(buses: &Vec<Bus<'a>>, index: usize, addr: u64) -> (r: Option<u64>)
    requires
        index < buses@.len(),
    ensures
        match r {
            Some(outer) => to_cpu(bus_views(buses@), index as int, addr as int) == Some(
                outer as int,
            ),
            None => to_cpu(bus_views(buses@), index as int, addr as int) is None,
        },
    decreases index,
{
    match translate_one_bus(buses, index, addr) {
        None => None,
        Some(outer) => if index == 0 {
            Some(outer)
        } else {
            translate_to_cpu(buses, index - 1, outer)
        },
    }
}

/// The range that cell `first` of a `reg` property begins, as the processor sees it. The cells
/// are those of the node's parent; an empty range is none.
pub open spec fn reg_at(buses: Seq<BusView>, value: Seq<u8>, first: int) -> Option<RegRange> {
    let parent = buses[buses.len() - 2];
    if buses.len() < 2 || parent.addr_cells == 0 || parent.size_cells == 0 || value.len() < 4 * (
    first + parent.addr_cells + parent.size_cells) {
        None
    } else {
        let size = cells(value, first + parent.addr_cells, parent.size_cells as int);
        match to_cpu(
            buses,
            buses.len() - 2,
            cells(value, first, parent.addr_cells as int),
        ) {
            Some(base) if size != 0 => Some(RegRange { base: base as u64, size: size as u64 }),
            _ => None,
        }
    }
}

fn read_translated_reg<'a>(buses: &Vec<Bus<'a>>, value: &[u8], first: usize) -> (r: Option<
    RegRange,
>)
    requires
        4 * first <= value@.len(),
    ensures
        r == reg_at(bus_views(buses@), value@, first as int),
{
    if buses.len() < 2 {
        return None;
    }
    let parent: usize = buses.len() - 2;
    assert(bus_views(buses@)[parent as int] == buses@[parent as int]@);
    let addr_cells: u64 = buses[parent].addr_cells as u64;
    let size_cells: u64 = buses[parent].size_cells as u64;
    if addr_cells == 0 || size_cells == 0 || ((value.len() / 4 - first) as u64) < addr_cells
        + size_cells {
        return None;
    }
    let base: u64 = read_cells(value, first, addr_cells as usize);
    let size: u64 = read_cells(value, first + addr_cells as usize, size_cells as usize);
    if size == 0 {
        return None;
    }
    match translate_to_cpu(buses, parent, base) {
        Some(base) => Some(RegRange { base, size }),
        None => None,
    }
}

/// The interrupt that a three-cell specifier at cell `first` names: shared interrupts count
/// from 32, private ones from 16.
pub open spec fn gic_irq(value: Seq<u8>, first: int) -> Option<IrqSpec> {
    let kind = word(value, 4 * first);
    let number = word(value, 4 * first + 4);
    let flags = word(value, 4 * first + 8);
    let intid = if kind == 0 {
        32 + number
    } else {
        16 + number
    };
    if value.len() < 4 * first + 12 || kind > 1 || intid > u32::MAX {
        None
    } else {
        Some(IrqSpec { intid: intid as u32, flags: flags as u32 })
    }
}

fn parse_gic_interrupts(value: &[u8], first: usize) -> (r: Option<IrqSpec>)
    requires
        first <= 3,
    ensures
        r == gic_irq(value@, first as int),
{
    if value.len() < 4 * first + 12 {
        return None;
    }
    let kind: u32 = read_be(value, 4 * first);
    let number: u32 = read_be(value, 4 * first + 4);
    let flags: u32 = read_be(value, 4 * first + 8);
    let intid: Option<u32> = if kind == 0 {
        number.checked_add(32)
    } else if kind == 1 {
        number.checked_add(16)
    } else {
        None
    };
    match intid {
        Some(intid) => Some(IrqSpec { intid, flags }),
        None => None,
    }
}

/// The interrupt of a controller behind the I/O hub: a full specifier, or a local number that
/// the hub raises from 0x7f on.
pub open spec fn rp1_irq(value: Seq<u8>) -> Option<IrqSpec> {
    if value.len() >= 12 {
        gic_irq(value, 0)
    } else if value.len() < 8 || word(value, 0) + 0x7f > u32::MAX {
        None
    } else {
        Some(IrqSpec { intid: (word(value, 0) + 0x7f) as u32, flags: word(value, 4) as u32 })
    }
}

fn parse_rp1_interrupt(value: &[u8]) -> (r: Option<IrqSpec>)
    ensures
        r == rp1_irq(value@),
{
    if value.len() >= 12 {
        return parse_gic_interrupts(value, 0);
    }
    if value.len() < 8 {
        return None;
    }
    let local_irq: u32 = read_be(value, 0);
    let flags: u32 = read_be(value, 4);
    match local_irq.checked_add(0x7f) {
        Some(intid) => Some(IrqSpec { intid, flags }),
        None => None,
    }
}

/// What a walk does with an event: it goes on in a new state, or it is done.
pub enum Step<S, R> {
    Go(S),
    Done(R),
}

/// Whether a property tells how addresses below the node are written or translated.
pub open spec fn is_bus_prop(name: Seq<u8>, value: Seq<u8>) -> bool {
    (name == text("#address-cells") && value.len() == 4) || (name == text("#size-cells")
        && value.len() == 4) || name == text("ranges")
}

/// The innermost bus learns such a property.
pub open spec fn with_bus_prop(buses: Seq<BusView>, name: Seq<u8>, value: Seq<u8>) -> Seq<
    BusView,
> {
    let bus = buses.last();
    buses.update(
        buses.len() - 1,
        if name == text("#address-cells") && value.len() == 4 {
            BusView { addr_cells: word(value, 0) as u32, ..bus }
        } else if name == text("#size-cells") && value.len() == 4 {
            BusView { size_cells: word(value, 0) as u32, ..bus }
        } else {
            BusView { ranges: Some(value), ..bus }
        },
    )
}

fn names_bus_prop(name: &[u8], value: &[u8]) -> (r: bool)
    ensures
        r == is_bus_prop(name@, value@),
{
    (is_text(name, "#address-cells") && value.len() == 4) || (is_text(name, "#size-cells")
        && value.len() == 4) || is_text(name, "ranges")
}

fn set_bus_prop<'a>(buses: &mut Vec<Bus<'a>>, name: &[u8], value: &'a [u8])
    requires
        old(buses)@.len() > 0,
        is_bus_prop(name@, value@),
    ensures
        bus_views(final(buses)@) == with_bus_prop(bus_views(old(buses)@), name@, value@),
        final(buses)@.len() == old(buses)@.len(),
{
    let place: usize = buses.len() - 1;
    let ghost before = buses@;
    if is_text(name, "#address-cells") && value.len() == 4 {
        buses[place].addr_cells = read_be(value, 0);
    } else if is_text(name, "#size-cells") && value.len() == 4 {
        buses[place].size_cells = read_be(value, 0);
    } else {
        buses[place].ranges = Some(value);
    }
    assert(bus_views(buses@) =~= with_bus_prop(bus_views(before), name@, value@));
}

fn push_bus<'a>(buses: &mut Vec<Bus<'a>>)
    ensures
        bus_views(final(buses)@) == bus_views(old(buses)@).push(BusView::initial()),
        final(buses)@.len() == old(buses)@.len() + 1,
{
    let ghost before = buses@;
    buses.push(Bus { addr_cells: 2, size_cells: 1, ranges: None });
    assert(bus_views(buses@) =~= bus_views(before).push(BusView::initial()));
}

fn pop_bus<'a>(buses: &mut Vec<Bus<'a>>)
    requires
        old(buses)@.len() > 0,
    ensures
        bus_views(final(buses)@) == bus_views(old(buses)@).drop_last(),
        final(buses)@.len() == old(buses)@.len() - 1,
{
    let ghost before = buses@;
    let _ = buses.pop();
    assert(bus_views(buses@) =~= bus_views(before).drop_last());
}

/// What a walk for the interrupt controller knows of an open node.
#[derive(Clone, Copy)]
#[verifier::ext_equal]
pub struct GicNode {
    pub is_gic: bool,
    /// Its first register ranges, four at most.
    pub regs: [RegRange; 4],
    pub reg_count: usize,
}

#[verifier::ext_equal]
pub struct GicView {
    pub buses: Seq<BusView>,
    /// The nodes around the open one.
    pub outer: Seq<GicNode>,
    pub node: GicNode,
}

pub struct GicWalk<'a> {
    pub buses: Vec<Bus<'a>>,
    pub outer: Vec<GicNode>,
    pub node: GicNode,
}

impl<'a> View for GicWalk<'a> {
    type V = GicView;

    open spec fn view(&self) -> GicView {
        GicView { buses: bus_views(self.buses@), outer: self.outer@, node: self.node }
    }
}

impl GicNode {
    pub open spec fn fresh() -> GicNode {
        GicNode {
            is_gic: false,
            regs: crate::util::filled(RegRange { base: 0, size: 0 }),
            reg_count: 0,
        }
    }

    pub open spec fn with_reg(self, reg: Option<RegRange>) -> GicNode {
        match reg {
            Some(reg) if self.reg_count < 4 => GicNode {
                regs: self.regs.upd(self.reg_count as int, reg),
                reg_count: (self.reg_count + 1) as usize,
                ..self
            },
            _ => self,
        }
    }

    /// The node with the ranges of the first `n` entries of a `reg` property, as far as they
    /// are wanted.
    pub open spec fn with_regs(self, buses: Seq<BusView>, value: Seq<u8>, n: int) -> GicNode
        decreases n,
    {
        if n <= 0 {
            self
        } else {
            let parent = buses[buses.len() - 2];
            let each = parent.addr_cells + parent.size_cells;
            self.with_regs(buses, value, n - 1).with_reg(reg_at(buses, value, (n - 1) * each))
        }
    }

    fn new() -> (r: GicNode)
        ensures
            r == GicNode::fresh(),
    {
        GicNode { is_gic: false, regs: [RegRange { base: 0, size: 0 };4], reg_count: 0 }
    }
}

/// Number of entries in a `reg` property of the open node.
pub open spec fn reg_entries(buses: Seq<BusView>, value: Seq<u8>) -> int {
    let parent = buses[buses.len() - 2];
    let each = parent.addr_cells + parent.size_cells;
    if buses.len() < 2 || each == 0 {
        0
    } else {
        (value.len() as int / 4) / each
    }
}

impl GicView {
    pub open spec fn start() -> GicView {
        GicView { buses: seq![], outer: seq![], node: GicNode::fresh() }
    }

    pub open spec fn wf(self) -> bool {
        self.buses.len() == self.outer.len() && self.node.reg_count <= 4 && forall|i: int|
            0 <= i < self.outer.len() ==> (#[trigger] self.outer[i]).reg_count <= 4
    }

    pub open spec fn step(self, event: Event) -> Step<GicView, Option<(u64, u64)>> {
        match event {
            Event::End => Step::Done(None),
            Event::Bad => Step::Done(None),
            Event::Nop => Step::Go(self),
            Event::Begin(_) => if self.buses.len() + 1 >= MAX_DEPTH {
                Step::Done(None)
            } else {
                Step::Go(
                    GicView {
                        buses: self.buses.push(BusView::initial()),
                        outer: self.outer.push(self.node),
                        node: GicNode::fresh(),
                    },
                )
            },
            Event::EndNode => if self.node.is_gic && self.node.reg_count >= 2 {
                Step::Done(Some((self.node.regs@[0].base, self.node.regs@[1].base)))
            } else if self.buses.len() == 0 {
                Step::Done(None)
            } else {
                Step::Go(
                    GicView {
                        buses: self.buses.drop_last(),
                        outer: self.outer.drop_last(),
                        node: self.outer.last(),
                    },
                )
            },
            Event::Prop { name, value, at: _ } => if is_bus_prop(name, value) {
                if self.buses.len() == 0 {
                    Step::Done(None)
                } else {
                    Step::Go(
                        GicView { buses: with_bus_prop(self.buses, name, value), ..self },
                    )
                }
            } else if name == text("compatible") {
                Step::Go(GicView { node: GicNode { is_gic: is_gic(value), ..self.node }, ..self })
            } else if name == text("reg") {
                Step::Go(
                    GicView {
                        node: self.node.with_regs(
                            self.buses,
                            value,
                            reg_entries(self.buses, value),
                        ),
                        ..self
                    },
                )
            } else {
                Step::Go(self)
            },
        }
    }

    /// What the walk finds from event `k` on.
    pub open spec fn run(self, events: Seq<Event>, k: int) -> Option<(u64, u64)>
        decreases events.len() - k,
    {
        if k < 0 || k >= events.len() {
            None
        } else {
            match self.step(events[k]) {
                Step::Go(next) => next.run(events, k + 1),
                Step::Done(result) => result,
            }
        }
    }
}

/// Once four ranges are known, more entries change nothing.
proof fn lemma_regs_full(node: GicNode, buses: Seq<BusView>, value: Seq<u8>, e: int, n: int)
    requires
        0 <= e <= n,
        node.with_regs(buses, value, e).reg_count >= 4,
    ensures
        node.with_regs(buses, value, n) == node.with_regs(buses, value, e),
    decreases n,
{
    if e < n {
        lemma_regs_full(node, buses, value, e, n - 1);
    }
}

impl<'a> GicWalk<'a> {
    fn add_regs(&mut self, value: &'a [u8])
        requires
            old(self)@.wf(),
        ensures
            final(self)@ == (GicView {
                node: old(self)@.node.with_regs(
                    old(self)@.buses,
                    value@,
                    reg_entries(old(self)@.buses, value@),
                ),
                ..old(self)@
            }),
            final(self)@.wf(),
    {
        if self.buses.len() < 2 {
            return;
        }
        let parent: usize = self.buses.len() - 2;
        assert(self@.buses[parent as int] == self.buses@[parent as int]@);
        let each: u64 = self.buses[parent].addr_cells as u64 + self.buses[parent].size_cells as u64;
        if each == 0 {
            return;
        }
        let entries: u64 = (value.len() / 4) as u64 / each;
        let mut e: u64 = 0;
        while e < entries && self.node.reg_count < 4
            invariant
                self@.wf(),
                value@.len() <= usize::MAX,
                self.buses == old(self).buses,
                self.outer == old(self).outer,
                self.buses@.len() >= 2,
                parent == self.buses@.len() - 2,
                self@.buses[parent as int] == self.buses@[parent as int]@,
                each == self.buses@[parent as int].addr_cells
                    + self.buses@[parent as int].size_cells,
                each > 0,
                entries == (value@.len() as int / 4) / each as int,
                e <= entries,
                self.node == old(self).node.with_regs(self@.buses, value@, e as int),
            decreases entries - e,
        {
            proof {
                lemma_range_fits(value@.len() as int, each as int, e as int);
            }
            let first: usize = (e * each) as usize;
            if let Some(reg) = read_translated_reg(&self.buses, value, first) {
                let place: usize = self.node.reg_count;
                self.node.regs[place] = reg;
                self.node.reg_count = place + 1;
            }
            e = e + 1;
        }
        proof {
            if e < entries {
                lemma_regs_full(old(self).node, self@.buses, value@, e as int, entries as int);
            }
        }
    }

    fn step(&mut self, token: &Token<'a>) -> (r: Option<Option<(u64, u64)>>)
        requires
            old(self)@.wf(),
        ensures
            match old(self)@.step(token@) {
                Step::Go(next) => r is None && final(self)@ == next && final(self)@.wf(),
                Step::Done(result) => r == Some(result),
            },
    {
        match token {
            Token::End => Some(None),
            Token::Bad => Some(None),
            Token::Nop => None,
            Token::Begin(_) => {
                if self.buses.len() >= MAX_DEPTH - 1 {
                    return Some(None);
                }
                push_bus(&mut self.buses);
                self.outer.push(self.node);
                self.node = GicNode::new();
                None
            },
            Token::EndNode => {
                if self.node.is_gic && self.node.reg_count >= 2 {
                    return Some(Some((self.node.regs[0].base, self.node.regs[1].base)));
                }
                if self.buses.len() == 0 {
                    return Some(None);
                }
                pop_bus(&mut self.buses);
                assert(self.outer@.last().reg_count <= 4);
                if let Some(node) = self.outer.pop() {
                    self.node = node;
                }
                None
            },
            Token::Prop { name, value, at: _ } => {
                if names_bus_prop(name, value) {
                    if self.buses.len() == 0 {
                        return Some(None);
                    }
                    set_bus_prop(&mut self.buses, name, value);
                } else if is_text(name, "compatible") {
                    self.node.is_gic = prop_contains_gic(value);
                } else if is_text(name, "reg") {
                    self.add_regs(value);
                }
                None
            },
        }
    }
}

/// The base addresses of the distributor and of the CPU interface: the first two ranges of the
/// first interrupt controller node that ends with at least two.
pub open spec fn gic_regs(blob: Seq<u8>) -> Option<(u64, u64)> {
    match events(blob) {
        None => None,
        Some(events) => GicView::start().run(events, 0),
    }
}

/// Finds the registers of the interrupt controller.
pub fn find_gic_regs(blob: &[u8]) -> (r: Option<(u64, u64)>)
    ensures
        r == gic_regs(blob@),
{
    match tokens(blob) {
        None => None,
        Some(list) => {
            let mut walk = GicWalk { buses: Vec::new(), outer: Vec::new(), node: GicNode::new() };
            assert(walk@ =~= GicView::start());
            let mut k: usize = 0;
            while k < list.len()
                invariant
                    walk@.wf(),
                    events(blob@) == Some(views(list@)),
                    k <= list@.len(),
                    walk@.run(views(list@), k as int) == GicView::start().run(views(list@), 0),
                decreases list@.len() - k,
            {
                assert(views(list@)[k as int] == list@[k as int]@);
                if let Some(result) = walk.step(&list[k]) {
                    return result;
                }
                k = k + 1;
            }
            None
        },
    }
}

/// The path of a node called `name` below the node at `path`. The root has an empty name; a
/// path grows no longer than its capacity.
pub open spec fn joined(path: Seq<u8>, name: Seq<u8>) -> Seq<u8> {
    if name.len() == 0 {
        if path.len() == 0 {
            seq![0x2fu8]
        } else {
            path
        }
    } else {
        let base = if path.len() == 0 {
            seq![0x2fu8]
        } else if 1 < path.len() < MAX_PATH {
            path.push(0x2f)
        } else {
            path
        };
        let room = if base.len() < MAX_PATH - 1 {
            MAX_PATH - 1 - base.len()
        } else {
            0
        };
        base + name.take(
            if name.len() < room {
                name.len() as int
            } else {
                room
            },
        )
    }
}

/// Where a walk stands: the path of the open node, and how long it was at each node around it.
#[verifier::ext_equal]
pub struct PlaceView {
    pub path: Seq<u8>,
    pub marks: Seq<usize>,
}

pub struct Place {
    pub path: Vec<u8>,
    pub marks: Vec<usize>,
}

impl View for Place {
    type V = PlaceView;

    open spec fn view(&self) -> PlaceView {
        PlaceView { path: self.path@, marks: self.marks@ }
    }
}

impl PlaceView {
    pub open spec fn start() -> PlaceView {
        PlaceView { path: seq![], marks: seq![] }
    }

    /// The marks grow from the root inwards, up to the length of the path.
    pub open spec fn wf(self) -> bool {
        &&& self.path.len() <= MAX_PATH
        &&& forall|i: int|
            0 <= i < self.marks.len() ==> (#[trigger] self.marks[i]) <= self.path.len()
        &&& forall|i: int, j: int|
            0 <= i < j < self.marks.len() ==> (#[trigger] self.marks[i]) <= (
            #[trigger] self.marks[j])
    }

    pub open spec fn entered(self, name: Seq<u8>) -> PlaceView {
        PlaceView {
            path: joined(self.path, name),
            marks: self.marks.push(self.path.len() as usize),
        }
    }

    pub open spec fn left(self) -> PlaceView {
        PlaceView {
            path: self.path.take(self.marks.last() as int),
            marks: self.marks.drop_last(),
        }
    }
}

impl Place {
    fn new() -> (r: Place)
        ensures
            r@ == PlaceView::start(),
            r@.wf(),
    {
        Place { path: Vec::new(), marks: Vec::new() }
    }

    fn enter(&mut self, name: &[u8])
        requires
            old(self)@.wf(),
        ensures
            final(self)@ == old(self)@.entered(name@),
            final(self)@.wf(),
    {
        self.marks.push(self.path.len());
        append_node_to_path(&mut self.path, name);
    }

    fn leave(&mut self)
        requires
            old(self)@.wf(),
            old(self)@.marks.len() > 0,
        ensures
            final(self)@ == old(self)@.left(),
            final(self)@.wf(),
    {
        let ghost before = self@;
        assert(before.marks[before.marks.len() - 1] <= before.path.len());
        if let Some(mark) = self.marks.pop() {
            self.path.truncate(mark);
            assert(self@.path =~= before.path.take(mark as int));
            assert(mark == before.marks[before.marks.len() - 1]);
            assert forall|i: int| 0 <= i < self@.marks.len() implies (#[trigger] self@.marks[i])
                <= self@.path.len() by {
                assert(before.marks[i] <= before.marks[before.marks.len() - 1]);
            }
        }
    }
}

fn append_node_to_path(path: &mut Vec<u8>, name: &[u8])
    requires
        old(path)@.len() <= MAX_PATH,
    ensures
        final(path)@ == joined(old(path)@, name@),
        old(path)@.len() <= final(path)@.len() <= MAX_PATH,
{
    if name.len() == 0 {
        if path.len() == 0 {
            path.push(0x2f);
        }
        return;
    }
    if path.len() == 0 {
        path.push(0x2f);
    } else if path.len() > 1 && path.len() < MAX_PATH {
        path.push(0x2f);
    }
    let ghost base = path@;
    let mut i: usize = 0;
    while i < name.len() && path.len() < MAX_PATH - 1
        invariant
            i <= name@.len(),
            base.len() <= MAX_PATH,
            path@ == base + name@.take(i as int),
            i > 0 ==> path@.len() <= MAX_PATH - 1,
        decreases name@.len() - i,
    {
        path.push(name[i]);
        i = i + 1;
        assert(path@ =~= base + name@.take(i as int));
    }
}

/// The name before a colon or a zero byte, at most 63 bytes of it.
pub open spec fn selector_of(value: Seq<u8>, n: int) -> Seq<u8>
    decreases value.len() - n,
{
    if n < 0 || n >= value.len() || n >= 63 || value[n] == 0 || value[n] == 0x3a {
        value.take(n)
    } else {
        selector_of(value, n + 1)
    }
}

fn copy_stdout_selector<'a>(value: &'a [u8]) -> (r: &'a [u8])
    ensures
        r@ == selector_of(value@, 0),
{
    let mut i: usize = 0;
    while i < value.len() && i < 63 && value[i] != 0 && value[i] != 0x3a
        invariant
            i <= value@.len(),
            selector_of(value@, 0) == selector_of(value@, i as int),
        decreases value@.len() - i,
    {
        i = i + 1;
    }
    slice_subrange(value, 0, i)
}

/// The text before a zero byte, as much as a path holds.
pub open spec fn path_text(value: Seq<u8>, n: int) -> Seq<u8>
    decreases value.len() - n,
{
    if n < 0 || n >= value.len() || n >= MAX_PATH - 1 || value[n] == 0 {
        value.take(n)
    } else {
        path_text(value, n + 1)
    }
}

fn copy_cstr<'a>(value: &'a [u8]) -> (r: &'a [u8])
    ensures
        r@ == path_text(value@, 0),
{
    let mut i: usize = 0;
    while i < value.len() && i < MAX_PATH - 1 && value[i] != 0
        invariant
            i <= value@.len(),
            path_text(value@, 0) == path_text(value@, i as int),
        decreases value@.len() - i,
    {
        i = i + 1;
    }
    slice_subrange(value, 0, i)
}

/// A walk for the console: `/chosen` selects an alias, `/aliases` says which path it stands
/// for.
#[verifier::ext_equal]
pub struct StdoutView {
    pub place: PlaceView,
    pub selector: Seq<u8>,
}

pub struct StdoutWalk<'a> {
    pub place: Place,
    pub selector: &'a [u8],
}

impl<'a> View for StdoutWalk<'a> {
    type V = StdoutView;

    open spec fn view(&self) -> StdoutView {
        StdoutView { place: self.place@, selector: self.selector@ }
    }
}

impl StdoutView {
    pub open spec fn start() -> StdoutView {
        StdoutView { place: PlaceView::start(), selector: seq![] }
    }

    pub open spec fn step(self, event: Event) -> Step<StdoutView, Seq<u8>> {
        match event {
            Event::End => Step::Done(seq![]),
            Event::Bad => Step::Done(seq![]),
            Event::Nop => Step::Go(self),
            Event::Begin(name) => Step::Go(
                if self.place.marks.len() < MAX_DEPTH {
                    StdoutView { place: self.place.entered(name), ..self }
                } else {
                    self
                },
            ),
            Event::EndNode => Step::Go(
                if self.place.marks.len() > 0 {
                    StdoutView { place: self.place.left(), ..self }
                } else {
                    self
                },
            ),
            Event::Prop { name, value, at: _ } => if self.place.path == text("/chosen") && (name
                == text("stdout-path") || name == text("linux,stdout-path")) {
                Step::Go(StdoutView { selector: selector_of(value, 0), ..self })
            } else if self.place.path == text("/aliases") && self.selector.len() > 0 && name
                == self.selector && path_text(value, 0).len() > 0 {
                Step::Done(path_text(value, 0))
            } else {
                Step::Go(self)
            },
        }
    }

    pub open spec fn run(self, events: Seq<Event>, k: int) -> Seq<u8>
        decreases events.len() - k,
    {
        if k < 0 || k >= events.len() {
            seq![]
        } else {
            match self.step(events[k]) {
                Step::Go(next) => next.run(events, k + 1),
                Step::Done(result) => result,
            }
        }
    }
}

impl<'a> StdoutWalk<'a> {
    fn step(&mut self, token: &Token<'a>) -> (r: Option<&'a [u8]>)
        requires
            old(self)@.place.wf(),
        ensures
            match old(self)@.step(token@) {
                Step::Go(next) => r is None && final(self)@ == next && final(self)@.place.wf(),
                Step::Done(result) => r is Some && r->0@ == result,
            },
    {
        match token {
            Token::End => Some(slice_subrange(self.selector, 0, 0)),
            Token::Bad => Some(slice_subrange(self.selector, 0, 0)),
            Token::Nop => None,
            Token::Begin(name) => {
                if self.place.marks.len() < MAX_DEPTH {
                    self.place.enter(name);
                }
                None
            },
            Token::EndNode => {
                if self.place.marks.len() > 0 {
                    self.place.leave();
                }
                None
            },
            Token::Prop { name, value, at: _ } => {
                if is_text(self.place.path.as_slice(), "/chosen") && (is_text(name, "stdout-path")
                    || is_text(name, "linux,stdout-path")) {
                    self.selector = copy_stdout_selector(value);
                } else if is_text(self.place.path.as_slice(), "/aliases") && self.selector.len() > 0
                    && same(name, self.selector) {
                    let target: &'a [u8] = copy_cstr(value);
                    if target.len() > 0 {
                        return Some(target);
                    }
                }
                None
            },
        }
    }
}

/// The path of the node that the console was asked for on; empty if nothing says so.
pub fn find_stdout_target_path<'a>(list: &Vec<Token<'a>>, blob: &'a [u8]) -> (r: &'a [u8])
    ensures
        r@ == StdoutView::start().run(views(list@), 0),
{
    let none: &'a [u8] = slice_subrange(blob, 0, 0);
    let mut walk = StdoutWalk { place: Place::new(), selector: none };
    assert(walk@ =~= StdoutView::start());
    let mut k: usize = 0;
    while k < list.len()
        invariant
            walk@.place.wf(),
            none@.len() == 0,
            k <= list@.len(),
            walk@.run(views(list@), k as int) == StdoutView::start().run(views(list@), 0),
        decreases list@.len() - k,
    {
        assert(views(list@)[k as int] == list@[k as int]@);
        if let Some(result) = walk.step(&list[k]) {
            return result;
        }
        k = k + 1;
    }
    none
}

/// A walk for the console's UART. It is the node at the path `target`, or else the first usable
/// one.
#[verifier::ext_equal]
pub struct UartView<T> {
    pub buses: Seq<BusView>,
    pub place: PlaceView,
    pub target: Seq<u8>,
    pub compatible: bool,
    pub disabled: bool,
    /// What the open node has to offer.
    pub found: Option<T>,
    /// What the first usable node had to offer.
    pub fallback: Option<T>,
}

pub struct UartWalk<'a, T> {
    pub buses: Vec<Bus<'a>>,
    pub place: Place,
    pub target: &'a [u8],
    pub compatible: bool,
    pub disabled: bool,
    pub found: Option<T>,
    pub fallback: Option<T>,
}

impl<'a, T> View for UartWalk<'a, T> {
    type V = UartView<T>;

    open spec fn view(&self) -> UartView<T> {
        UartView {
            buses: bus_views(self.buses@),
            place: self.place@,
            target: self.target@,
            compatible: self.compatible,
            disabled: self.disabled,
            found: self.found,
            fallback: self.fallback,
        }
    }
}

impl<T> UartView<T> {
    pub open spec fn start(target: Seq<u8>) -> UartView<T> {
        UartView {
            buses: seq![],
            place: PlaceView::start(),
            target,
            compatible: false,
            disabled: false,
            found: None,
            fallback: None,
        }
    }

    pub open spec fn wf(self) -> bool {
        self.place.wf() && self.place.marks.len() == self.buses.len()
    }

    /// The open node is a UART that can be used.
    pub open spec fn usable(self) -> bool {
        self.compatible && !self.disabled
    }

    /// The open node is the wanted one and offers something.
    pub open spec fn hit(self) -> bool {
        self.usable() && self.target.len() > 0 && self.place.path == self.target && self.found
            is Some
    }

    pub open spec fn begin(self, name: Seq<u8>) -> Step<UartView<T>, Option<T>> {
        if self.buses.len() + 1 >= MAX_DEPTH {
            Step::Done(None)
        } else {
            Step::Go(
                UartView {
                    buses: self.buses.push(BusView::initial()),
                    place: self.place.entered(name),
                    compatible: false,
                    disabled: false,
                    found: None,
                    ..self
                },
            )
        }
    }

    pub open spec fn end_node(self) -> Step<UartView<T>, Option<T>> {
        if self.hit() {
            Step::Done(self.found)
        } else if self.buses.len() == 0 {
            Step::Done(None)
        } else {
            Step::Go(
                UartView {
                    buses: self.buses.drop_last(),
                    place: self.place.left(),
                    compatible: false,
                    disabled: false,
                    found: None,
                    fallback: if self.usable() && self.fallback is None {
                        self.found
                    } else {
                        self.fallback
                    },
                    ..self
                },
            )
        }
    }

    /// A property that both searches read alike. `offer` is what the open node offers with it.
    pub open spec fn property(self, name: Seq<u8>, value: Seq<u8>, offer: Option<T>) -> Step<
        UartView<T>,
        Option<T>,
    > {
        if is_bus_prop(name, value) {
            if self.buses.len() == 0 {
                Step::Done(None)
            } else {
                Step::Go(UartView { buses: with_bus_prop(self.buses, name, value), ..self })
            }
        } else if name == text("status") {
            Step::Go(UartView { disabled: begins_with(value, text("disabled")), ..self })
        } else if name == text("compatible") {
            Step::Go(UartView { compatible: is_pl011(value), ..self })
        } else if self.found is None {
            Step::Go(UartView { found: offer, ..self })
        } else {
            Step::Go(self)
        }
    }
}

impl UartView<RegRange> {
    pub open spec fn step(self, event: Event) -> Step<UartView<RegRange>, Option<RegRange>> {
        match event {
            Event::End => Step::Done(
                if self.hit() {
                    self.found
                } else {
                    self.fallback
                },
            ),
            Event::Bad => Step::Done(None),
            Event::Nop => Step::Go(self),
            Event::Begin(name) => self.begin(name),
            Event::EndNode => self.end_node(),
            Event::Prop { name, value, at: _ } => self.property(
                name,
                value,
                if name == text("reg") {
                    reg_at(self.buses, value, 0)
                } else {
                    None
                },
            ),
        }
    }

    /// The range that the walk finds from event `k` on.
    pub open spec fn run(self, events: Seq<Event>, k: int) -> Option<RegRange>
        decreases events.len() - k,
    {
        if k < 0 || k >= events.len() {
            None
        } else {
            match self.step(events[k]) {
                Step::Go(next) => next.run(events, k + 1),
                Step::Done(result) => result,
            }
        }
    }
}

impl UartView<IrqSpec> {
    pub open spec fn step(self, event: Event) -> Step<UartView<IrqSpec>, Option<IrqSpec>> {
        match event {
            Event::End => Step::Done(self.fallback),
            Event::Bad => Step::Done(None),
            Event::Nop => Step::Go(self),
            Event::Begin(name) => self.begin(name),
            Event::EndNode => self.end_node(),
            Event::Prop { name, value, at: _ } => self.property(
                name,
                value,
                if name == text("interrupts") {
                    gic_irq(value, 0)
                } else {
                    None
                },
            ),
        }
    }

    /// The interrupt that the walk finds from event `k` on.
    pub open spec fn run(self, events: Seq<Event>, k: int) -> Option<IrqSpec>
        decreases events.len() - k,
    {
        if k < 0 || k >= events.len() {
            None
        } else {
            match self.step(events[k]) {
                Step::Go(next) => next.run(events, k + 1),
                Step::Done(result) => result,
            }
        }
    }
}

impl<'a, T: Copy> UartWalk<'a, T> {
    fn new(target: &'a [u8]) -> (r: UartWalk<'a, T>)
        ensures
            r@ == UartView::<T>::start(target@),
            r@.wf(),
    {
        let r = UartWalk {
            buses: Vec::new(),
            place: Place::new(),
            target,
            compatible: false,
            disabled: false,
            found: None,
            fallback: None,
        };
        assert(r@.buses =~= Seq::<BusView>::empty());
        r
    }

    fn hit(&self) -> (r: bool)
        ensures
            r == self@.hit(),
    {
        self.compatible && !self.disabled && self.target.len() > 0 && same(
            self.place.path.as_slice(),
            self.target,
        ) && self.found.is_some()
    }

    fn begin(&mut self, name: &[u8]) -> (r: Option<Option<T>>)
        requires
            old(self)@.wf(),
        ensures
            match old(self)@.begin(name@) {
                Step::Go(next) => r is None && final(self)@ == next && final(self)@.wf(),
                Step::Done(result) => r == Some(result),
            },
    {
        if self.buses.len() >= MAX_DEPTH - 1 {
            return Some(None);
        }
        push_bus(&mut self.buses);
        self.place.enter(name);
        self.compatible = false;
        self.disabled = false;
        self.found = None;
        None
    }

    fn end_node(&mut self) -> (r: Option<Option<T>>)
        requires
            old(self)@.wf(),
        ensures
            match old(self)@.end_node() {
                Step::Go(next) => r is None && final(self)@ == next && final(self)@.wf(),
                Step::Done(result) => r == Some(result),
            },
    {
        if self.hit() {
            return Some(self.found);
        }
        if self.compatible && !self.disabled && self.fallback.is_none() {
            self.fallback = self.found;
        }
        if self.buses.len() == 0 {
            return Some(None);
        }
        pop_bus(&mut self.buses);
        self.place.leave();
        self.compatible = false;
        self.disabled = false;
        self.found = None;
        None
    }

    fn property(&mut self, name: &[u8], value: &'a [u8], offer: Option<T>) -> (r: Option<Option<T>>)
        requires
            old(self)@.wf(),
        ensures
            match old(self)@.property(name@, value@, offer) {
                Step::Go(next) => r is None && final(self)@ == next && final(self)@.wf(),
                Step::Done(result) => r == Some(result),
            },
    {
        if names_bus_prop(name, value) {
            if self.buses.len() == 0 {
                return Some(None);
            }
            set_bus_prop(&mut self.buses, name, value);
        } else if is_text(name, "status") {
            self.disabled = starts_with(value, "disabled");
        } else if is_text(name, "compatible") {
            self.compatible = prop_contains_pl011(value);
        } else if self.found.is_none() {
            self.found = offer;
        }
        None
    }
}

fn uart_reg_step<'a>(walk: &mut UartWalk<'a, RegRange>, token: &Token<'a>) -> (r: Option<
    Option<RegRange>,
>)
    requires
        old(walk)@.wf(),
    ensures
        match old(walk)@.step(token@) {
            Step::Go(next) => r is None && final(walk)@ == next && final(walk)@.wf(),
            Step::Done(result) => r == Some(result),
        },
{
    match token {
        Token::End => if walk.hit() {
            Some(walk.found)
        } else {
            Some(walk.fallback)
        },
        Token::Bad => Some(None),
        Token::Nop => None,
        Token::Begin(name) => walk.begin(name),
        Token::EndNode => walk.end_node(),
        Token::Prop { name, value, at: _ } => {
            let offer: Option<RegRange> = if is_text(name, "reg") {
                read_translated_reg(&walk.buses, value, 0)
            } else {
                None
            };
            walk.property(name, value, offer)
        },
    }
}

fn uart_irq_step<'a>(walk: &mut UartWalk<'a, IrqSpec>, token: &Token<'a>) -> (r: Option<
    Option<IrqSpec>,
>)
    requires
        old(walk)@.wf(),
    ensures
        match old(walk)@.step(token@) {
            Step::Go(next) => r is None && final(walk)@ == next && final(walk)@.wf(),
            Step::Done(result) => r == Some(result),
        },
{
    match token {
        Token::End => Some(walk.fallback),
        Token::Bad => Some(None),
        Token::Nop => None,
        Token::Begin(name) => walk.begin(name),
        Token::EndNode => walk.end_node(),
        Token::Prop { name, value, at: _ } => {
            let offer: Option<IrqSpec> = if is_text(name, "interrupts") {
                parse_gic_interrupts(value, 0)
            } else {
                None
            };
            walk.property(name, value, offer)
        },
    }
}

/// The register range of the console's UART in a blob.
pub open spec fn uart_reg(blob: Seq<u8>) -> Option<RegRange> {
    match events(blob) {
        None => None,
        Some(events) => UartView::<RegRange>::start(StdoutView::start().run(events, 0)).run(
            events,
            0,
        ),
    }
}

/// The interrupt of the console's UART in a blob.
pub open spec fn uart_irq(blob: Seq<u8>) -> Option<IrqSpec> {
    match events(blob) {
        None => None,
        Some(events) => UartView::<IrqSpec>::start(StdoutView::start().run(events, 0)).run(
            events,
            0,
        ),
    }
}

/// The register range of the console's UART, as the processor sees it.
pub fn find_pl011_reg(blob: &[u8]) -> (r: Option<RegRange>)
    ensures
        r == uart_reg(blob@),
{
    let list: Vec<Token> = match tokens(blob) {
        None => {
            return None;
        },
        Some(list) => list,
    };
    let target: &[u8] = find_stdout_target_path(&list, blob);
    let mut walk: UartWalk<RegRange> = UartWalk::new(target);
    let mut k: usize = 0;
    while k < list.len()
        invariant
            walk@.wf(),
            k <= list@.len(),
            walk@.run(views(list@), k as int) == uart_reg(blob@),
        decreases list@.len() - k,
    {
        assert(views(list@)[k as int] == list@[k as int]@);
        if let Some(result) = uart_reg_step(&mut walk, &list[k]) {
            return result;
        }
        k = k + 1;
    }
    None
}

/// The interrupt of the console's UART.
pub fn find_uart_irq(blob: &[u8]) -> (r: Option<IrqSpec>)
    ensures
        r == uart_irq(blob@),
{
    let list: Vec<Token> = match tokens(blob) {
        None => {
            return None;
        },
        Some(list) => list,
    };
    let target: &[u8] = find_stdout_target_path(&list, blob);
    let mut walk: UartWalk<IrqSpec> = UartWalk::new(target);
    let mut k: usize = 0;
    while k < list.len()
        invariant
            walk@.wf(),
            k <= list@.len(),
            walk@.run(views(list@), k as int) == uart_irq(blob@),
        decreases list@.len() - k,
    {
        assert(views(list@)[k as int] == list@[k as int]@);
        if let Some(result) = uart_irq_step(&mut walk, &list[k]) {
            return result;
        }
        k = k + 1;
    }
    None
}

/// The interrupt number of the console's UART.
pub fn find_uart_intid(blob: &[u8]) -> (r: Option<u32>)
    ensures
        r == match uart_irq(blob@) {
            Some(irq) => Some(irq.intid),
            None => None,
        },
{
    match find_uart_irq(blob) {
        Some(irq) => Some(irq.intid),
        None => None,
    }
}

/// What a walk for the timer knows of an open node.
#[derive(Clone, Copy)]
#[verifier::ext_equal]
pub struct TimerNode {
    pub compatible: bool,
    pub disabled: bool,
    pub irq: Option<IrqSpec>,
}

impl TimerNode {
    pub open spec fn fresh() -> TimerNode {
        TimerNode { compatible: false, disabled: false, irq: None }
    }

    pub open spec fn with_property(self, name: Seq<u8>, value: Seq<u8>) -> TimerNode {
        if name == text("compatible") {
            TimerNode { compatible: lists(value, text("arm,armv8-timer")), ..self }
        } else if name == text("status") {
            TimerNode { disabled: begins_with(value, text("disabled")), ..self }
        } else if name == text("interrupts") && value.len() >= 24 {
            TimerNode { irq: gic_irq(value, 3), ..self }
        } else {
            self
        }
    }

    /// What a walk over open nodes `nodes`, the innermost last, finds from event `k` on.
    pub open spec fn run(nodes: Seq<TimerNode>, events: Seq<Event>, k: int) -> Option<IrqSpec>
        decreases events.len() - k,
    {
        if k < 0 || k >= events.len() {
            None
        } else {
            match events[k] {
                Event::End => None,
                Event::Bad => None,
                Event::Nop => TimerNode::run(nodes, events, k + 1),
                Event::Begin(_) => if nodes.len() >= MAX_DEPTH {
                    None
                } else {
                    TimerNode::run(nodes.push(TimerNode::fresh()), events, k + 1)
                },
                Event::EndNode => if nodes.len() == 0 {
                    None
                } else if nodes.last().compatible && !nodes.last().disabled && nodes.last().irq
                    is Some {
                    nodes.last().irq
                } else {
                    TimerNode::run(nodes.drop_last(), events, k + 1)
                },
                Event::Prop { name, value, at: _ } => if nodes.len() == 0 {
                    None
                } else {
                    TimerNode::run(
                        nodes.update(nodes.len() - 1, nodes.last().with_property(name, value)),
                        events,
                        k + 1,
                    )
                },
            }
        }
    }
}

/// The interrupt of the non-secure physical timer: the second specifier of the first usable
/// timer node.
pub open spec fn timer_irq(blob: Seq<u8>) -> Option<IrqSpec> {
    match events(blob) {
        None => None,
        Some(events) => TimerNode::run(seq![], events, 0),
    }
}

/// The interrupt of the timer that EL1 uses.
pub fn find_nonsecure_physical_timer_irq(blob: &[u8]) -> (r: Option<IrqSpec>)
    ensures
        r == timer_irq(blob@),
{
    let list: Vec<Token> = match tokens(blob) {
        None => {
            return None;
        },
        Some(list) => list,
    };
    let mut nodes: Vec<TimerNode> = Vec::new();
    let mut k: usize = 0;
    while k < list.len()
        invariant
            k <= list@.len(),
            TimerNode::run(nodes@, views(list@), k as int) == timer_irq(blob@),
        decreases list@.len() - k,
    {
        assert(views(list@)[k as int] == list@[k as int]@);
        let ghost before = nodes@;
        match &list[k] {
            Token::End => {
                return None;
            },
            Token::Bad => {
                return None;
            },
            Token::Nop => {},
            Token::Begin(_) => {
                if nodes.len() >= MAX_DEPTH {
                    return None;
                }
                nodes.push(TimerNode { compatible: false, disabled: false, irq: None });
            },
            Token::EndNode => {
                match nodes.pop() {
                    None => {
                        return None;
                    },
                    Some(node) => {
                        if node.compatible && !node.disabled && node.irq.is_some() {
                            return node.irq;
                        }
                    },
                }
                assert(nodes@ =~= before.drop_last());
            },
            Token::Prop { name, value, at: _ } => {
                if nodes.len() == 0 {
                    return None;
                }
                let place: usize = nodes.len() - 1;
                if is_text(name, "compatible") {
                    nodes[place].compatible = prop_contains_string(value, "arm,armv8-timer");
                } else if is_text(name, "status") {
                    nodes[place].disabled = starts_with(value, "disabled");
                } else if is_text(name, "interrupts") && value.len() >= 24 {
                    nodes[place].irq = parse_gic_interrupts(value, 3);
                }
                assert(nodes@ =~= before.update(
                    before.len() - 1,
                    before.last().with_property(name@, value@),
                ));
            },
        }
        k = k + 1;
    }
    None
}

/// A walk for a USB host controller behind the I/O hub.
#[verifier::ext_equal]
pub struct XhciView {
    pub buses: Seq<BusView>,
    pub is_dwc3: bool,
    pub reg: Option<RegRange>,
    pub irq: Option<IrqSpec>,
}

pub struct XhciWalk<'a> {
    pub buses: Vec<Bus<'a>>,
    pub is_dwc3: bool,
    pub reg: Option<RegRange>,
    pub irq: Option<IrqSpec>,
}

impl<'a> View for XhciWalk<'a> {
    type V = XhciView;

    open spec fn view(&self) -> XhciView {
        XhciView {
            buses: bus_views(self.buses@),
            is_dwc3: self.is_dwc3,
            reg: self.reg,
            irq: self.irq,
        }
    }
}

impl XhciView {
    pub open spec fn over(buses: Seq<BusView>) -> XhciView {
        XhciView { buses, is_dwc3: false, reg: None, irq: None }
    }

    pub open spec fn property(self, name: Seq<u8>, value: Seq<u8>) -> XhciView {
        if name == text("compatible") {
            XhciView { is_dwc3: lists(value, text("snps,dwc3")), ..self }
        } else if name == text("reg") && self.reg is None {
            XhciView { reg: reg_at(self.buses, value, 0), ..self }
        } else if name == text("interrupts") && self.irq is None {
            XhciView { irq: rp1_irq(value), ..self }
        } else {
            self
        }
    }

    pub open spec fn step(self, event: Event) -> Step<XhciView, Option<(RegRange, IrqSpec)>> {
        match event {
            Event::End => Step::Done(None),
            Event::Bad => Step::Done(None),
            Event::Nop => Step::Go(self),
            Event::Begin(_) => if self.buses.len() >= MAX_DEPTH {
                Step::Done(None)
            } else {
                Step::Go(XhciView::over(self.buses.push(BusView::initial())))
            },
            Event::EndNode => if self.is_dwc3 && self.reg is Some && self.irq is Some {
                Step::Done(Some((self.reg->0, self.irq->0)))
            } else if self.buses.len() == 0 {
                Step::Done(None)
            } else {
                Step::Go(XhciView::over(self.buses.drop_last()))
            },
            Event::Prop { name, value, at: _ } => if is_bus_prop(name, value) {
                if self.buses.len() == 0 {
                    Step::Done(None)
                } else {
                    Step::Go(XhciView { buses: with_bus_prop(self.buses, name, value), ..self })
                }
            } else {
                Step::Go(self.property(name, value))
            },
        }
    }

    /// What the walk finds from event `k` on.
    pub open spec fn run(self, events: Seq<Event>, k: int) -> Option<(RegRange, IrqSpec)>
        decreases events.len() - k,
    {
        if k < 0 || k >= events.len() {
            None
        } else {
            match self.step(events[k]) {
                Step::Go(next) => next.run(events, k + 1),
                Step::Done(result) => result,
            }
        }
    }
}

impl<'a> XhciWalk<'a> {
    fn reset(&mut self)
        ensures
            final(self)@ == XhciView::over(old(self)@.buses),
    {
        self.is_dwc3 = false;
        self.reg = None;
        self.irq = None;
    }

    fn step(&mut self, token: &Token<'a>) -> (r: Option<Option<(RegRange, IrqSpec)>>)
        ensures
            match old(self)@.step(token@) {
                Step::Go(next) => r is None && final(self)@ == next,
                Step::Done(result) => r == Some(result),
            },
    {
        match token {
            Token::End => Some(None),
            Token::Bad => Some(None),
            Token::Nop => None,
            Token::Begin(_) => {
                if self.buses.len() >= MAX_DEPTH {
                    return Some(None);
                }
                push_bus(&mut self.buses);
                self.reset();
                None
            },
            Token::EndNode => {
                if self.is_dwc3 {
                    if let Some(reg) = self.reg {
                        if let Some(irq) = self.irq {
                            return Some(Some((reg, irq)));
                        }
                    }
                }
                if self.buses.len() == 0 {
                    return Some(None);
                }
                pop_bus(&mut self.buses);
                self.reset();
                None
            },
            Token::Prop { name, value, at: _ } => {
                if names_bus_prop(name, value) {
                    if self.buses.len() == 0 {
                        return Some(None);
                    }
                    set_bus_prop(&mut self.buses, name, value);
                } else if is_text(name, "compatible") {
                    self.is_dwc3 = prop_contains_string(value, "snps,dwc3");
                } else if is_text(name, "reg") && self.reg.is_none() {
                    self.reg = read_translated_reg(&self.buses, value, 0);
                } else if is_text(name, "interrupts") && self.irq.is_none() {
                    self.irq = parse_rp1_interrupt(value);
                }
                None
            },
        }
    }
}

/// Registers and interrupt of the first USB host controller that has both.
pub open spec fn rp1_xhci(blob: Seq<u8>) -> Option<(RegRange, IrqSpec)> {
    match events(blob) {
        None => None,
        Some(events) => XhciView::over(seq![]).run(events, 0),
    }
}

/// Finds the USB host controller behind the I/O hub.
pub fn find_rp1_xhci(blob: &[u8]) -> (r: Option<(RegRange, IrqSpec)>)
    ensures
        r == rp1_xhci(blob@),
{
    let list: Vec<Token> = match tokens(blob) {
        None => {
            return None;
        },
        Some(list) => list,
    };
    let mut walk = XhciWalk { buses: Vec::new(), is_dwc3: false, reg: None, irq: None };
    assert(walk@ =~= XhciView::over(seq![]));
    let mut k: usize = 0;
    while k < list.len()
        invariant
            k <= list@.len(),
            walk@.run(views(list@), k as int) == rp1_xhci(blob@),
        decreases list@.len() - k,
    {
        assert(views(list@)[k as int] == list@[k as int]@);
        if let Some(result) = walk.step(&list[k]) {
            return result;
        }
        k = k + 1;
    }
    None
}

/// Cells and kind of the node whose properties are being read. Cells are not kept for each node:
/// they are the last ones seen, and two again after the end of any node.
#[derive(Clone, Copy)]
#[verifier::ext_equal]
pub struct Flat {
    pub addr_cells: u32,
    pub size_cells: u32,
    pub is_memory: bool,
}

/// The number at byte `at`, of two cells or of one, if the blob reaches that far.
pub open spec fn number_at(blob: Seq<u8>, at: int, two: bool) -> Option<u64> {
    if two && at + 8 <= blob.len() {
        Some((word(blob, at) * 0x1_0000_0000 + word(blob, at + 4)) as u64)
    } else if !two && at + 4 <= blob.len() {
        Some(word(blob, at) as u64)
    } else {
        None
    }
}

pub(crate) fn read_number(blob: &[u8], at: u64, two: bool) -> (r: Option<u64>)
    ensures
        r == number_at(blob@, at as int, two),
{
    let len: u64 = blob.len() as u64;
    if two {
        if at > len || len - at < 8 {
            return None;
        }
        let high: u64 = read_be(blob, at as usize) as u64;
        let low: u64 = read_be(blob, at as usize + 4) as u64;
        Some(high * 0x1_0000_0000 + low)
    } else {
        if at > len || len - at < 4 {
            return None;
        }
        Some(read_be(blob, at as usize) as u64)
    }
}

impl Flat {
    pub open spec fn initial() -> Flat {
        Flat { addr_cells: 2, size_cells: 2, is_memory: false }
    }

    pub open spec fn each(self) -> int {
        self.addr_cells + self.size_cells
    }

    /// The range of entry `e` of a `reg` property whose value starts at byte `at` of the blob.
    /// Numbers of one cell or of more than two are read as one cell; the size begins behind the
    /// address cells.
    pub open spec fn range(self, blob: Seq<u8>, at: int, e: int) -> Option<RegRange> {
        let base_at = at + 4 * (e * self.each());
        let size_at = base_at + 4 * self.addr_cells;
        match (
            number_at(blob, base_at, self.addr_cells == 2),
            number_at(blob, size_at, self.size_cells == 2),
        ) {
            (Some(base), Some(size)) => Some(RegRange { base, size }),
            _ => None,
        }
    }

    /// Number of entries in a `reg` property of `len` bytes.
    pub open spec fn entries(self, len: int) -> int {
        if self.each() == 0 {
            0
        } else {
            (len / 4) / self.each()
        }
    }

    /// The ranges of the first `n` entries, in order, without empty ones.
    pub open spec fn ranges(self, blob: Seq<u8>, at: int, n: int) -> Seq<RegRange>
        decreases n,
    {
        if n <= 0 {
            seq![]
        } else {
            let before = self.ranges(blob, at, n - 1);
            match self.range(blob, at, n - 1) {
                Some(range) if !self.is_memory && range.size != 0 => before.push(range),
                _ => before,
            }
        }
    }

    pub open spec fn after(self, event: Event) -> Flat {
        match event {
            Event::Begin(name) => Flat {
                is_memory: name == text("memory") || begins_with(name, text("memory@")),
                ..self
            },
            Event::EndNode => Flat::initial(),
            Event::Prop { name, value, at: _ } => if name == text("#address-cells") && value.len()
                == 4 {
                Flat { addr_cells: word(value, 0) as u32, ..self }
            } else if name == text("#size-cells") && value.len() == 4 {
                Flat { size_cells: word(value, 0) as u32, ..self }
            } else {
                self
            },
            _ => self,
        }
    }

    /// The device ranges that one event names.
    pub open spec fn named(self, blob: Seq<u8>, event: Event) -> Seq<RegRange> {
        match event {
            Event::Prop { name, value, at } => if name == text("reg") {
                self.ranges(blob, at, self.entries(value.len() as int))
            } else {
                seq![]
            },
            _ => seq![],
        }
    }

    /// The device ranges that the events from `k` on name.
    pub open spec fn run(self, blob: Seq<u8>, events: Seq<Event>, k: int) -> Seq<RegRange>
        decreases events.len() - k,
    {
        if k < 0 || k >= events.len() {
            seq![]
        } else {
            self.named(blob, events[k]) + self.after(events[k]).run(blob, events, k + 1)
        }
    }
}

/// All device ranges of a blob, in order. Those of memory nodes are not among them.
pub open spec fn device_ranges(blob: Seq<u8>) -> Seq<RegRange> {
    match events(blob) {
        None => seq![],
        Some(events) => Flat::initial().run(blob, events, 0),
    }
}

fn flat_ranges(flat: &Flat, blob: &[u8], at: usize, len: usize, out: &mut Vec<RegRange>)
    requires
        at + len <= blob@.len(),
    ensures
        final(out)@ == old(out)@ + flat.ranges(blob@, at as int, flat.entries(len as int)),
{
    let each: u64 = flat.addr_cells as u64 + flat.size_cells as u64;
    let blob_len: usize = blob.len();
    if each == 0 {
        assert(out@ =~= old(out)@ + flat.ranges(blob@, at as int, 0));
        return;
    }
    let entries: u64 = (len / 4) as u64 / each;
    let mut e: u64 = 0;
    assert(out@ =~= old(out)@ + flat.ranges(blob@, at as int, 0));
    while e < entries
        invariant
            at + len <= blob@.len() <= usize::MAX,
            each == flat.each(),
            each > 0,
            entries == (len as int / 4) / each as int,
            e <= entries,
            out@ == old(out)@ + flat.ranges(blob@, at as int, e as int),
        decreases entries - e,
    {
        proof {
            lemma_range_fits(len as int, each as int, e as int);
        }
        let base_at: u64 = at as u64 + 4 * (e * each);
        let size_at: u64 = base_at + 4 * (flat.addr_cells as u64);
        let base: Option<u64> = read_number(blob, base_at, flat.addr_cells == 2);
        let size: Option<u64> = read_number(blob, size_at, flat.size_cells == 2);
        if let Some(base) = base {
            if let Some(size) = size {
                if !flat.is_memory && size != 0 {
                    out.push(RegRange { base, size });
                }
            }
        }
        e = e + 1;
        assert(out@ =~= old(out)@ + flat.ranges(blob@, at as int, e as int));
    }
}

/// Reads every device range that the blob names.
pub fn collect_ranges(blob: &[u8]) -> (r: Vec<RegRange>)
    ensures
        r@ == device_ranges(blob@),
{
    let mut out: Vec<RegRange> = Vec::new();
    let list: Vec<Token> = match tokens(blob) {
        None => {
            return out;
        },
        Some(list) => list,
    };
    let mut flat = Flat { addr_cells: 2, size_cells: 2, is_memory: false };
    let mut k: usize = 0;
    assert(out@ + flat.run(blob@, views(list@), 0) =~= device_ranges(blob@));
    while k < list.len()
        invariant
            k <= list@.len(),
            props_inside(blob@, views(list@)),
            device_ranges(blob@) == out@ + flat.run(blob@, views(list@), k as int),
        decreases list@.len() - k,
    {
        assert(views(list@)[k as int] == list@[k as int]@);
        let ghost before = out@;
        let ghost was = flat;
        match &list[k] {
            Token::Begin(name) => {
                flat.is_memory = is_text(name, "memory") || starts_with(name, "memory@");
            },
            Token::EndNode => {
                flat = Flat { addr_cells: 2, size_cells: 2, is_memory: false };
            },
            Token::Prop { name, value, at } => {
                if is_text(name, "reg") {
                    flat_ranges(&flat, blob, *at, value.len(), &mut out);
                }
                if is_text(name, "#address-cells") && value.len() == 4 {
                    flat.addr_cells = read_be(value, 0);
                } else if is_text(name, "#size-cells") && value.len() == 4 {
                    flat.size_cells = read_be(value, 0);
                }
            },
            _ => {},
        }
        proof {
            let event = views(list@)[k as int];
            assert(out@ =~= before + was.named(blob@, event));
            assert(flat == was.after(event));
            assert(out@ + flat.run(blob@, views(list@), k + 1) =~= before + was.run(
                blob@,
                views(list@),
                k as int,
            ));
        }
        k = k + 1;
    }
    assert(out@ =~= device_ranges(blob@));
    out
}

/// The protection table after registering `ranges` up to `k`.
pub open spec fn registered(table: ProtectTable, ranges: Seq<RegRange>, k: int) -> ProtectTable
    decreases k,
{
    if k <= 0 {
        table
    } else {
        registered(table, ranges, k - 1).registered(ranges[k - 1].base, ranges[k - 1].size)
    }
}

/// Registers every device range of the blob as a window that could be granted.
pub fn parse(blob: &[u8], table: &mut ProtectTable)
    requires
        old(table).wf(),
    ensures
        *final(table) == registered(
            *old(table),
            device_ranges(blob@),
            device_ranges(blob@).len() as int,
        ),
        final(table).wf(),
{
    let ranges: Vec<RegRange> = collect_ranges(blob);
    let mut k: usize = 0;
    while k < ranges.len()
        invariant
            k <= ranges@.len(),
            table.wf(),
            *table == registered(*old(table), ranges@, k as int),
        decreases ranges@.len() - k,
    {
        protect::register(table, ranges[k].base, ranges[k].size);
        k = k + 1;
    }
}

} // verus!
