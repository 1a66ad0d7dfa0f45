//! What is written into a device tree is what is read out of it.
use crate::boot::dtb::{self, cells, event_at, events_from, nul_from, word, BusView, Event};
use vstd::prelude::*;

verus! {

/// A number as four bytes, the most significant one first.
pub open spec fn four_bytes(n: int) -> Seq<u8> {
    seq![
        ((n / 0x100_0000) % 256) as u8,
        ((n / 0x1_0000) % 256) as u8,
        ((n / 0x100) % 256) as u8,
        (n % 256) as u8,
    ]
}

/// A number that was written as four bytes is read back.
pub proof fn law_word_is_read_back(bytes: Seq<u8>, at: int, n: int)
    requires
        0 <= n < 0x1_0000_0000,
        0 <= at,
        at + 4 <= bytes.len(),
        bytes.subrange(at, at + 4) == four_bytes(n),
    ensures
        word(bytes, at) == n,
{
    let b = bytes.subrange(at, at + 4);
    assert(b[0] == bytes[at] && b[1] == bytes[at + 1] && b[2] == bytes[at + 2] && b[3] == bytes[at
        + 3]);
}

/// A number that was written into one cell, or into the last two of several, is read back.
pub proof fn law_cells_are_read_back(value: Seq<u8>, first: int, n: int, number: int)
    requires
        0 <= first,
        1 <= n,
        4 * (first + n) <= value.len(),
        0 <= number < 0x1_0000_0000_0000_0000,
        value.subrange(4 * (first + n - 1), 4 * (first + n)) == four_bytes(
            number % 0x1_0000_0000,
        ),
        n == 1 ==> number < 0x1_0000_0000,
        n >= 2 ==> value.subrange(4 * (first + n - 2), 4 * (first + n - 1)) == four_bytes(
            number / 0x1_0000_0000,
        ),
    ensures
        cells(value, first, n) == number,
{
    law_word_is_read_back(value, 4 * (first + n - 1), number % 0x1_0000_0000);
    if n >= 2 {
        law_word_is_read_back(value, 4 * (first + n - 2), number / 0x1_0000_0000);
    }
}

/// What a tree is written from. The name of a property is in the strings, at this place.
pub enum Item {
    Begin(Seq<u8>),
    Prop { name: int, value: Seq<u8> },
    EndNode,
    Nop,
    End,
}

/// Zeros up to the next multiple of four.
pub open spec fn padding(len: int) -> Seq<u8> {
    Seq::new(((4 - len % 4) % 4) as nat, |i: int| 0u8)
}

/// The bytes of an item.
pub open spec fn written(item: Item) -> Seq<u8> {
    match item {
        Item::Begin(name) => four_bytes(1) + name + seq![0u8] + padding((name.len() + 1) as int),
        Item::Prop { name, value } => four_bytes(3) + four_bytes(value.len() as int) + four_bytes(
            name,
        ) + value + padding(value.len() as int),
        Item::EndNode => four_bytes(2),
        Item::Nop => four_bytes(4),
        Item::End => four_bytes(9),
    }
}

pub open spec fn all_written(items: Seq<Item>) -> Seq<u8>
    decreases items.len(),
{
    if items.len() == 0 {
        seq![]
    } else {
        written(items[0]) + all_written(items.drop_first())
    }
}

/// The item can be written: names have no zero in them, and numbers fit.
pub open spec fn writable(blob: Seq<u8>, strings: int, item: Item) -> bool {
    match item {
        Item::Begin(name) => forall|i: int| 0 <= i < name.len() ==> #[trigger] name[i] != 0,
        Item::Prop { name, value } => 0 <= name < 0x1_0000_0000 && value.len() < 0x1_0000_0000
            && nul_from(blob, strings + name) is Some,
        _ => true,
    }
}

/// What an item at offset `pos` says.
pub open spec fn said(blob: Seq<u8>, strings: int, item: Item, pos: int) -> Event {
    match item {
        Item::Begin(name) => Event::Begin(name),
        Item::Prop { name, value } => Event::Prop {
            name: blob.subrange(strings + name, nul_from(blob, strings + name)->0),
            value,
            at: pos + 12,
        },
        Item::EndNode => Event::EndNode,
        Item::Nop => Event::Nop,
        Item::End => Event::End,
    }
}

pub open spec fn all_said(blob: Seq<u8>, strings: int, items: Seq<Item>, pos: int) -> Seq<Event>
    decreases items.len(),
{
    if items.len() == 0 {
        seq![]
    } else {
        seq![said(blob, strings, items[0], pos)] + all_said(
            blob,
            strings,
            items.drop_first(),
            pos + written(items[0]).len(),
        )
    }
}

proof fn lemma_nul(blob: Seq<u8>, from: int, end: int)
    requires
        0 <= from <= end < blob.len(),
        forall|i: int| from <= i < end ==> #[trigger] blob[i] != 0,
        blob[end] == 0,
    ensures
        nul_from(blob, from) == Some(end),
    decreases end - from,
{
    if from < end {
        assert(blob[from] != 0);
        lemma_nul(blob, from + 1, end);
    }
}

/// A written item is read back, and the next one is looked for where it was written.
#[verifier::spinoff_prover]
pub proof fn law_item_is_read_back(blob: Seq<u8>, strings: int, item: Item, pos: int)
    requires
        0 <= pos,
        pos + written(item).len() <= blob.len(),
        blob.subrange(pos, pos + written(item).len()) == written(item),
        writable(blob, strings, item),
    ensures
        event_at(blob, strings, pos) == (
            said(blob, strings, item, pos),
            pos + written(item).len(),
        ),
{
    let bytes = written(item);
    let tag: int = match item {
        Item::Begin(_) => 1,
        Item::Prop { name, value } => 3,
        Item::EndNode => 2,
        Item::Nop => 4,
        Item::End => 9,
    };
    assert(blob.subrange(pos, pos + 4) =~= bytes.subrange(0, 4)) by {
        assert forall|i: int| 0 <= i < 4 implies blob[pos + i] == bytes[i] by {
            assert(blob.subrange(pos, pos + bytes.len())[i] == bytes[i]);
        }
    }
    assert(bytes.subrange(0, 4) =~= four_bytes(tag));
    law_word_is_read_back(blob, pos, tag);
    match item {
        Item::Begin(name) => {
            let end = pos + 4 + name.len();
            assert forall|i: int| pos + 4 <= i < end implies #[trigger] blob[i] != 0 by {
                assert(blob.subrange(pos, pos + bytes.len())[i - pos] == bytes[i - pos]);
                assert(bytes[i - pos] == name[i - pos - 4]);
            }
            assert(blob[end] == 0) by {
                assert(blob.subrange(pos, pos + bytes.len())[end - pos] == bytes[end - pos]);
            }
            lemma_nul(blob, pos + 4, end);
            assert(blob.subrange(pos + 4, end) =~= name) by {
                assert forall|i: int| 0 <= i < name.len() implies blob[pos + 4 + i] == name[i] by {
                    assert(blob.subrange(pos, pos + bytes.len())[4 + i] == bytes[4 + i]);
                    assert(bytes[4 + i] == name[i]);
                }
            }
        },
        Item::Prop { name, value } => {
            assert(blob.subrange(pos + 4, pos + 8) =~= four_bytes(value.len() as int)) by {
                assert forall|i: int| 0 <= i < 4 implies blob[pos + 4 + i] == four_bytes(
                    value.len() as int,
                )[i] by {
                    assert(blob.subrange(pos, pos + bytes.len())[4 + i] == bytes[4 + i]);
                }
            }
            law_word_is_read_back(blob, pos + 4, value.len() as int);
            assert(blob.subrange(pos + 8, pos + 12) =~= four_bytes(name)) by {
                assert forall|i: int| 0 <= i < 4 implies blob[pos + 8 + i] == four_bytes(
                    name,
                )[i] by {
                    assert(blob.subrange(pos, pos + bytes.len())[8 + i] == bytes[8 + i]);
                }
            }
            law_word_is_read_back(blob, pos + 8, name);
            assert(blob.subrange(pos + 12, pos + 12 + value.len()) =~= value) by {
                assert forall|i: int| 0 <= i < value.len() implies blob[pos + 12 + i]
                    == value[i] by {
                    assert(blob.subrange(pos, pos + bytes.len())[12 + i] == bytes[12 + i]);
                    assert(bytes[12 + i] == value[i]);
                }
            }
        },
        _ => {},
    }
}

/// A structure block that was written item by item, up to its end, is read back item by item.
pub proof fn law_tree_is_read_back(blob: Seq<u8>, strings: int, items: Seq<Item>, pos: int)
    requires
        items.len() > 0,
        items.last() is End,
        forall|i: int| 0 <= i < items.len() - 1 ==> !(#[trigger] items[i] is End),
        forall|i: int| 0 <= i < items.len() ==> writable(blob, strings, #[trigger] items[i]),
        0 <= pos,
        pos + all_written(items).len() <= blob.len(),
        blob.subrange(pos, pos + all_written(items).len()) == all_written(items),
    ensures
        events_from(blob, strings, pos) == all_said(blob, strings, items, pos),
    decreases items.len(),
{
    let item = items[0];
    let rest = items.drop_first();
    let n = written(item).len() as int;
    let all = all_written(items);
    reveal_with_fuel(all_said, 2);
    reveal_with_fuel(all_written, 2);
    assert(all == written(item) + all_written(rest));
    assert(blob.subrange(pos, pos + n) =~= written(item)) by {
        assert forall|i: int| 0 <= i < n implies blob[pos + i] == written(item)[i] by {
            assert(blob.subrange(pos, pos + all.len())[i] == all[i]);
        }
    }
    assert(writable(blob, strings, items[0]));
    law_item_is_read_back(blob, strings, item, pos);
    assert(n >= 4);
    if items.len() == 1 {
        assert(items[0] == items.last());
        assert(all_said(blob, strings, rest, pos + n) =~= Seq::<Event>::empty());
        assert(seq![said(blob, strings, item, pos)] + Seq::<Event>::empty() =~= seq![
            said(blob, strings, item, pos),
        ]);
    } else {
        assert(!(items[0] is End));
        assert(blob.subrange(pos + n, pos + n + all_written(rest).len()) =~= all_written(rest)) by {
            assert forall|i: int| 0 <= i < all_written(rest).len() implies blob[pos + n + i]
                == all_written(rest)[i] by {
                assert(blob.subrange(pos, pos + all.len())[n + i] == all[n + i]);
            }
        }
        assert(rest.last() == items.last());
        assert forall|i: int| 0 <= i < rest.len() - 1 implies !(#[trigger] rest[i] is End) by {
            assert(rest[i] == items[i + 1]);
        }
        assert forall|i: int| 0 <= i < rest.len() implies writable(
            blob,
            strings,
            #[trigger] rest[i],
        ) by {
            assert(rest[i] == items[i + 1]);
        }
        law_tree_is_read_back(blob, strings, rest, pos + n);
    }
}

/// An address that an entry of a bus covers, and no entry before it, comes out as far behind the
/// entry's parent address as it is behind the entry's child address, unless that does not fit. One
/// that no entry covers does not come out. A bus without entries changes no address.
pub proof fn law_bus_moves_addresses(buses: Seq<BusView>, index: int, addr: int, e: int)
    requires
        0 <= e <= dtb::range_count(buses, index),
        forall|i: int|
            0 <= i < e ==> {
                let entry = #[trigger] dtb::range_entry(buses, index, i);
                !(entry.child <= addr < entry.child + entry.size)
            },
        e < dtb::range_count(buses, index) ==> {
            let entry = dtb::range_entry(buses, index, e);
            entry.child <= addr < entry.child + entry.size
        },
    ensures
        dtb::through_bus(buses, index, addr) == if dtb::range_count(buses, index) == 0 {
            Some(addr)
        } else if e == dtb::range_count(buses, index) {
            None
        } else {
            let entry = dtb::range_entry(buses, index, e);
            if entry.parent + addr - entry.child <= u64::MAX {
                Some(entry.parent + addr - entry.child)
            } else {
                None
            }
        },
{
    lemma_covering(buses, index, addr, e, 0);
}

proof fn lemma_covering(buses: Seq<BusView>, index: int, addr: int, e: int, from: int)
    requires
        0 <= from <= e <= dtb::range_count(buses, index),
        forall|i: int|
            0 <= i < e ==> {
                let entry = #[trigger] dtb::range_entry(buses, index, i);
                !(entry.child <= addr < entry.child + entry.size)
            },
        e < dtb::range_count(buses, index) ==> {
            let entry = dtb::range_entry(buses, index, e);
            entry.child <= addr < entry.child + entry.size
        },
    ensures
        dtb::covering(buses, index, addr, from) == if e == dtb::range_count(buses, index) {
            None
        } else {
            Some(e)
        },
    decreases e - from,
{
    if from < e {
        let entry = dtb::range_entry(buses, index, from);
        assert(!(entry.child <= addr < entry.child + entry.size));
        lemma_covering(buses, index, addr, e, from + 1);
    }
}

/// The interrupt that a full specifier names: shared interrupts are counted from 32, private ones
/// from 16, and other kinds are refused.
pub proof fn law_interrupt_is_read_back(
    value: Seq<u8>,
    first: int,
    kind: int,
    number: int,
    flags: int,
)
    requires
        0 <= first,
        4 * first + 12 <= value.len(),
        0 <= kind < 0x1_0000_0000,
        0 <= number < 0xffff_ff00,
        0 <= flags < 0x1_0000_0000,
        value.subrange(4 * first, 4 * first + 4) == four_bytes(kind),
        value.subrange(4 * first + 4, 4 * first + 8) == four_bytes(number),
        value.subrange(4 * first + 8, 4 * first + 12) == four_bytes(flags),
    ensures
        match dtb::gic_irq(value, first) {
            Some(irq) => kind <= 1 && irq.flags == flags && irq.intid == number + if kind == 0 {
                32int
            } else {
                16
            },
            None => kind > 1,
        },
{
    law_word_is_read_back(value, 4 * first, kind);
    law_word_is_read_back(value, 4 * first + 4, number);
    law_word_is_read_back(value, 4 * first + 8, flags);
}

} // verus!
