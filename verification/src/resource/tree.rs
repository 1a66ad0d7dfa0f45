//! Nodes of a device tree, as the `fdt` crate finds them.
//!
//! The crate takes a blob at its word: it stops quietly at some faults and panics at others. So
//! every search asks first whether the blob has a fault of the second kind on its way. What lies
//! behind the place where a search ends does not matter.
use crate::boot::dtb::{self, read_be, FDT_BEGIN_NODE, FDT_END_NODE, FDT_MAGIC, FDT_NOP, FDT_PROP};
use vstd::prelude::*;
use vstd::slice::slice_subrange;

verus! {

/// Deepest nesting that is followed, and longest chain of aliases. The crate's list of open nodes
/// has no more places; it skips a node, and follows an alias, by as many calls of itself.
pub const MAX_WALK_DEPTH: usize = 63;

/// How far the contents of a node have come that is skipped. Properties come first, then child
/// nodes.
#[derive(Clone, Copy, Debug, PartialEq, Eq, Structural)]
pub enum Phase {
    Properties,
    Children,
    /// Only the end of the node may follow.
    Padding,
}

/// Where the blocks of a blob lie.
#[derive(Clone, Copy)]
#[verifier::ext_equal]
pub struct Extent {
    pub structure: usize,
    pub structure_end: usize,
    pub strings: usize,
    pub strings_end: usize,
}

/// The extent of a complete blob whose blocks lie inside it.
pub open spec fn extent_of(blob: Seq<u8>) -> Option<Extent> {
    let structure = dtb::word(blob, 8);
    let strings = dtb::word(blob, 12);
    let strings_end = strings + dtb::word(blob, 32);
    let structure_end = structure + dtb::word(blob, 36);
    if blob.len() < 40 || dtb::word(blob, 0) != FDT_MAGIC || dtb::word(blob, 4) > blob.len()
        || structure_end > blob.len() || strings_end > blob.len() {
        None
    } else {
        Some(
            Extent {
                structure: structure as usize,
                structure_end: structure_end as usize,
                strings: strings as usize,
                strings_end: strings_end as usize,
            },
        )
    }
}

/// An offset after padding, no further than the end of the structure block.
pub open spec fn clip(x: Extent, next: int) -> int {
    if next < x.structure_end {
        next
    } else {
        x.structure_end as int
    }
}

/// The token at offset `pos` of the structure block, if a whole one is left.
pub open spec fn tag(blob: Seq<u8>, x: Extent, pos: int) -> Option<int> {
    if 0 <= pos && pos + 4 <= x.structure_end {
        Some(dtb::word(blob, pos))
    } else {
        None
    }
}

/// The text from `from` on, up to a zero byte before `end`.
pub open spec fn text_at(blob: Seq<u8>, from: int, end: int) -> Option<Seq<u8>> {
    match dtb::nul_from(blob, from) {
        Some(nul) if nul < end => Some(blob.subrange(from, nul)),
        _ => None,
    }
}

/// The name of the node that begins at `pos`.
pub open spec fn node_name(blob: Seq<u8>, x: Extent, pos: int) -> Option<Seq<u8>> {
    text_at(blob, pos + 4, x.structure_end as int)
}

/// The offset behind the name of the node that begins at `pos`.
pub open spec fn after_name(x: Extent, pos: int, name: Seq<u8>) -> int {
    clip(x, pos + 4 + (name.len() + 4) / 4 * 4)
}

/// The offset behind the property at `pos`.
pub open spec fn after_prop(blob: Seq<u8>, x: Extent, pos: int) -> int {
    clip(x, pos + 12 + (dtb::word(blob, pos + 4) + 3) / 4 * 4)
}

/// The name of the property at `pos`.
pub open spec fn prop_name(blob: Seq<u8>, x: Extent, pos: int) -> Option<Seq<u8>> {
    text_at(blob, x.strings + dtb::word(blob, pos + 8), x.strings_end as int)
}

/// The value of the property at `pos`.
pub open spec fn prop_value(blob: Seq<u8>, pos: int) -> Seq<u8> {
    blob.subrange(pos + 12, pos + 12 + dtb::word(blob, pos + 4))
}

/// The property at `pos` can be read: value and name lie inside their blocks, and the name is
/// UTF-8.
pub open spec fn prop_ok(blob: Seq<u8>, x: Extent, pos: int) -> bool {
    &&& pos + 12 + dtb::word(blob, pos + 4) <= x.structure_end
    &&& match prop_name(blob, x, pos) {
        Some(name) => vstd::utf8::valid_utf8(name),
        None => false,
    }
}

/// A cell count takes a whole cell.
pub open spec fn counts_cells(name: Seq<u8>, len: int) -> bool {
    name == dtb::text("#address-cells") || name == dtb::text("#size-cells") ==> len >= 4
}

/// The offset of the next token that does not pad.
pub open spec fn past_nops(blob: Seq<u8>, x: Extent, pos: int) -> int
    decreases x.structure_end - pos,
{
    if tag(blob, x, pos) == Some(FDT_NOP as int) {
        past_nops(blob, x, pos + 4)
    } else {
        pos
    }
}

/// The offset behind a run of properties, if they can be read.
pub open spec fn past_props(blob: Seq<u8>, x: Extent, pos: int) -> Option<int>
    decreases x.structure_end - pos,
{
    if tag(blob, x, pos) != Some(FDT_PROP as int) {
        Some(pos)
    } else if prop_ok(blob, x, pos) {
        past_props(blob, x, after_prop(blob, x, pos))
    } else {
        None
    }
}

/// The properties from `pos` on: name and value of each, up to the first token of another kind
/// or one called `last`. Padding between them does no harm. None if one cannot be read.
pub open spec fn props_from(blob: Seq<u8>, x: Extent, pos: int, last: Option<Seq<u8>>) -> Option<
    Seq<(Seq<u8>, Seq<u8>)>,
>
    decreases x.structure_end - pos,
{
    let token = tag(blob, x, pos);
    if token == Some(FDT_NOP as int) {
        props_from(blob, x, pos + 4, last)
    } else if token == Some(FDT_PROP as int) {
        if !prop_ok(blob, x, pos) {
            None
        } else {
            let here = seq![(prop_name(blob, x, pos)->0, prop_value(blob, pos))];
            if last == prop_name(blob, x, pos) {
                Some(here)
            } else {
                match props_from(blob, x, after_prop(blob, x, pos), last) {
                    None => None,
                    Some(rest) => Some(here + rest),
                }
            }
        }
    } else {
        Some(Seq::empty())
    }
}

/// The value of the last property that is called `name`.
pub open spec fn last_of(props: Seq<(Seq<u8>, Seq<u8>)>, name: Seq<u8>) -> Option<Seq<u8>>
    decreases props.len(),
{
    if props.len() == 0 {
        None
    } else if props.last().0 == name {
        Some(props.last().1)
    } else {
        last_of(props.drop_last(), name)
    }
}

/// A list of strings, each with a zero byte behind it but perhaps the last, holds `item` at `from`
/// or behind it. The list ends at a string that is not UTF-8.
pub open spec fn lists_string(list: Seq<u8>, from: int, item: Seq<u8>) -> bool
    decreases list.len() - from,
{
    if from < 0 || from >= list.len() {
        false
    } else {
        match dtb::nul_from(list, from) {
            Some(nul) => {
                proof {
                    lemma_nul_from(list, from);
                }
                let here = list.subrange(from, nul);
                vstd::utf8::valid_utf8(here) && (here == item || lists_string(
                    list,
                    nul + 1,
                    item,
                ))
            },
            None => {
                let here = list.subrange(from, list.len() as int);
                vstd::utf8::valid_utf8(here) && here == item
            },
        }
    }
}

/// Among the properties is a last `compatible` that lists `item`.
pub open spec fn is_compatible(props: Seq<(Seq<u8>, Seq<u8>)>, item: Seq<u8>) -> bool {
    match last_of(props, dtb::text("compatible")) {
        Some(list) => lists_string(list, 0, item),
        None => false,
    }
}

/// Among the properties is a first `phandle` with this number.
pub open spec fn has_phandle(props: Seq<(Seq<u8>, Seq<u8>)>, phandle: u32) -> bool {
    match prop_of(props, dtb::text("phandle"), 0) {
        Some(value) => value.len() >= 4 && dtb::word(value, 0) == phandle,
        None => false,
    }
}

/// All properties from `pos` on can be read.
pub open spec fn props_ok(blob: Seq<u8>, x: Extent, pos: int) -> bool {
    props_from(blob, x, pos, None) is Some
}

/// Each cell count among the properties takes a whole cell.
pub open spec fn all_count(props: Seq<(Seq<u8>, Seq<u8>)>) -> bool {
    forall|i: int|
        0 <= i < props.len() ==> counts_cells((#[trigger] props[i]).0, props[i].1.len() as int)
}

/// All properties from `pos` on can be read, and their cell counts.
pub open spec fn cells_ok(blob: Seq<u8>, x: Extent, pos: int) -> bool {
    match props_from(blob, x, pos, None) {
        Some(props) => all_count(props),
        None => false,
    }
}

pub proof fn lemma_past_nops(blob: Seq<u8>, x: Extent, pos: int)
    ensures
        pos <= past_nops(blob, x, pos),
        0 <= pos <= x.structure_end ==> past_nops(blob, x, pos) <= x.structure_end,
    decreases x.structure_end - pos,
{
    if tag(blob, x, pos) == Some(FDT_NOP as int) {
        lemma_past_nops(blob, x, pos + 4);
    }
}

pub proof fn lemma_past_props(blob: Seq<u8>, x: Extent, pos: int)
    ensures
        match past_props(blob, x, pos) {
            Some(next) => pos <= next && (0 <= pos <= x.structure_end ==> next <= x.structure_end),
            None => true,
        },
    decreases x.structure_end - pos,
{
    if tag(blob, x, pos) == Some(FDT_PROP as int) && prop_ok(blob, x, pos) {
        lemma_past_props(blob, x, after_prop(blob, x, pos));
    }
}

/// Where the contents of a node begin, and those of the node that it lies in.
#[derive(Clone, Copy, Debug, PartialEq, Eq, Structural)]
pub struct Place {
    pub first: usize,
    pub parent: Option<usize>,
}

/// The nodes of a blob in order, as far as they can be listed.
#[verifier::ext_equal]
pub struct Walk {
    pub nodes: Seq<Place>,
    /// The list ends where the crate stops; else at a fault.
    pub sound: bool,
}

/// The nodes from offset `pos` on; `open` holds where the contents of the open ones begin. The
/// list ends at the first token that is out of place.
pub open spec fn walk(blob: Seq<u8>, x: Extent, pos: int, open: Seq<usize>) -> Walk
    decreases x.structure_end - pos,
{
    let begin = past_nops(blob, x, pos);
    if tag(blob, x, pos) == Some(FDT_END_NODE as int) {
        if open.len() > 0 {
            walk(blob, x, pos + 4, open.drop_last())
        } else {
            Walk { nodes: Seq::empty(), sound: false }
        }
    } else if tag(blob, x, begin) != Some(FDT_BEGIN_NODE as int) {
        Walk { nodes: Seq::empty(), sound: true }
    } else {
        match node_name(blob, x, begin) {
            Some(name) if vstd::utf8::valid_utf8(name) && open.len() < MAX_WALK_DEPTH => {
                let first = after_name(x, begin, name);
                match past_props(blob, x, past_nops(blob, x, first)) {
                    None => Walk { nodes: Seq::empty(), sound: false },
                    Some(next) => if tag(blob, x, next) is None {
                        Walk { nodes: Seq::empty(), sound: true }
                    } else {
                        proof {
                            lemma_past_nops(blob, x, pos);
                            lemma_past_nops(blob, x, first);
                            lemma_past_props(blob, x, past_nops(blob, x, first));
                        }
                        let rest = walk(blob, x, next, open.push(first as usize));
                        let place = Place {
                            first: first as usize,
                            parent: if open.len() > 0 {
                                Some(open.last())
                            } else {
                                None
                            },
                        };
                        Walk { nodes: seq![place] + rest.nodes, sound: rest.sound }
                    },
                }
            },
            _ => Walk { nodes: Seq::empty(), sound: false },
        }
    }
}

/// The nodes of a blob.
pub open spec fn walk_of(blob: Seq<u8>, x: Extent) -> Walk {
    walk(blob, x, x.structure as int, Seq::empty())
}

/// The offset behind the node that is being skipped, `depth` deep in it. It is nested properly:
/// properties, then children, then padding.
pub open spec fn skips(blob: Seq<u8>, x: Extent, pos: int, depth: int, phase: Phase) -> Option<int>
    decreases x.structure_end - pos,
{
    match tag(blob, x, pos) {
        None => None,
        Some(token) => if token == FDT_BEGIN_NODE {
            match node_name(blob, x, pos) {
                Some(name) if vstd::utf8::valid_utf8(name) && depth < MAX_WALK_DEPTH && phase
                    != Phase::Padding => skips(
                    blob,
                    x,
                    after_name(x, pos, name),
                    depth + 1,
                    Phase::Properties,
                ),
                _ => None,
            }
        } else if token == FDT_PROP {
            if depth > 0 && phase == Phase::Properties && prop_ok(blob, x, pos) {
                skips(blob, x, after_prop(blob, x, pos), depth, phase)
            } else {
                None
            }
        } else if token == FDT_NOP {
            if depth > 0 {
                skips(blob, x, pos + 4, depth, Phase::Padding)
            } else {
                None
            }
        } else if token == FDT_END_NODE {
            if depth == 1 {
                Some(pos + 4)
            } else if depth > 1 {
                skips(blob, x, pos + 4, depth - 1, Phase::Children)
            } else {
                None
            }
        } else {
            None
        },
    }
}

pub proof fn lemma_skips(blob: Seq<u8>, x: Extent, pos: int, depth: int, phase: Phase)
    ensures
        match skips(blob, x, pos, depth, phase) {
            Some(next) => 0 <= pos < next <= x.structure_end,
            None => true,
        },
    decreases x.structure_end - pos,
{
    if let Some(token) = tag(blob, x, pos) {
        if token == FDT_BEGIN_NODE {
            if let Some(name) = node_name(blob, x, pos) {
                lemma_skips(blob, x, after_name(x, pos, name), depth + 1, Phase::Properties);
            }
        } else if token == FDT_PROP {
            if prop_ok(blob, x, pos) {
                lemma_skips(blob, x, after_prop(blob, x, pos), depth, phase);
            }
        } else if token == FDT_NOP {
            lemma_skips(blob, x, pos + 4, depth, Phase::Padding);
        } else if token == FDT_END_NODE {
            lemma_skips(blob, x, pos + 4, depth - 1, Phase::Children);
        }
    }
}

/// What a search for a path comes to.
pub enum Lookup {
    /// The contents of the node begin here.
    Found(int),
    Absent,
    /// The search meets a fault.
    Fault,
}

/// What a search for a path in one node comes to.
pub enum Search {
    /// The contents of the node that was looked for begin here.
    Found(int),
    /// It is not there; the search goes on at this offset.
    Past(int),
    /// The search meets a fault.
    Fault,
}

/// The place of the first slash from `from` on; the end if there is none.
pub open spec fn slash_from(path: Seq<u8>, from: int) -> int
    decreases path.len() - from,
{
    if from < 0 || from >= path.len() || path[from] == 0x2f {
        from
    } else {
        slash_from(path, from + 1)
    }
}

/// The first component of a path.
pub open spec fn component(path: Seq<u8>) -> Seq<u8> {
    path.take(slash_from(path, 0))
}

/// What follows the first slash of a path; empty if nothing does.
pub open spec fn below(path: Seq<u8>) -> Seq<u8> {
    if slash_from(path, 0) < path.len() {
        path.skip(slash_from(path, 0) + 1)
    } else {
        Seq::empty()
    }
}

/// A node is called `want`. The node's unit address counts only if `want` has one.
pub open spec fn is_called(name: Seq<u8>, want: Seq<u8>) -> bool {
    if want.contains(0x40) {
        name == want
    } else {
        dtb::begins_with(name, want) && (name.len() == want.len() || name[want.len() as int]
            == 0x40)
    }
}

/// The search for `path` in the node that begins at `pos`. Behind the mark of a node whose name is
/// not UTF-8 it goes on as if that were nothing.
pub open spec fn search_node(blob: Seq<u8>, x: Extent, pos: int, path: Seq<u8>) -> Search
    decreases x.structure_end - pos, 0int,
{
    match node_name(blob, x, pos) {
        Some(name) if pos < x.structure_end => if !vstd::utf8::valid_utf8(name) {
            Search::Past(pos + 4)
        } else if !is_called(name, component(path)) {
            match skips(blob, x, pos, 0, Phase::Properties) {
                None => Search::Fault,
                Some(next) => Search::Past(next),
            }
        } else if below(path).len() == 0 {
            Search::Found(after_name(x, pos, name))
        } else {
            let first = after_name(x, pos, name);
            match past_props(blob, x, past_nops(blob, x, first)) {
                None => Search::Fault,
                Some(children) => {
                    proof {
                        lemma_nul_from(blob, pos + 4);
                        lemma_past_nops(blob, x, first);
                        lemma_past_props(blob, x, past_nops(blob, x, first));
                    }
                    search_children(blob, x, children, below(path))
                },
            }
        },
        _ => Search::Fault,
    }
}

/// The search for `path` in the nodes from offset `pos` on, up to the first token of another
/// kind.
pub open spec fn search_children(blob: Seq<u8>, x: Extent, pos: int, path: Seq<u8>) -> Search
    decreases x.structure_end - pos, 1int,
{
    if tag(blob, x, pos) == Some(FDT_BEGIN_NODE as int) {
        match search_node(blob, x, pos, path) {
            Search::Past(next) => if pos < next <= x.structure_end {
                search_children(blob, x, next, path)
            } else {
                Search::Fault
            },
            other => other,
        }
    } else if tag(blob, x, pos) is None {
        Search::Past(pos)
    } else {
        let end = past_nops(blob, x, pos);
        if tag(blob, x, end) is None {
            Search::Past(end)
        } else {
            Search::Past(end + 4)
        }
    }
}

/// The node at `path`. The search begins with the first node, which has no name.
pub open spec fn lookup(blob: Seq<u8>, x: Extent, path: Seq<u8>) -> Lookup {
    let begin = past_nops(blob, x, x.structure as int);
    if tag(blob, x, begin) != Some(FDT_BEGIN_NODE as int) {
        Lookup::Absent
    } else {
        match search_node(blob, x, begin, path) {
            Search::Found(first) => Lookup::Found(first),
            Search::Past(_) => Lookup::Absent,
            Search::Fault => Lookup::Fault,
        }
    }
}

/// The nodes from offset `pos` on can be skipped one by one, and their properties read.
pub open spec fn siblings_ok(blob: Seq<u8>, x: Extent, pos: int) -> bool
    decreases x.structure_end - pos,
{
    let begin = past_nops(blob, x, pos);
    if tag(blob, x, begin) != Some(FDT_BEGIN_NODE as int) {
        true
    } else {
        match node_name(blob, x, begin) {
            None => false,
            Some(name) => !vstd::utf8::valid_utf8(name) || match skips(
                blob,
                x,
                begin,
                0,
                Phase::Properties,
            ) {
                None => false,
                Some(next) => {
                    proof {
                        lemma_past_nops(blob, x, pos);
                        lemma_skips(blob, x, begin, 0, Phase::Properties);
                    }
                    props_ok(blob, x, after_name(x, begin, name)) && siblings_ok(blob, x, next)
                },
            },
        }
    }
}

/// The contents that begin at `first` can be passed over to the child nodes, and these read.
pub open spec fn children_ok(blob: Seq<u8>, x: Extent, first: int) -> bool {
    match past_props(blob, x, past_nops(blob, x, first)) {
        Some(next) => tag(blob, x, next) is Some && siblings_ok(blob, x, next),
        None => false,
    }
}

/// A text without the zero bytes at its end.
pub open spec fn trimmed(text: Seq<u8>) -> Seq<u8>
    decreases text.len(),
{
    if text.len() > 0 && text.last() == 0 {
        trimmed(text.drop_last())
    } else {
        text
    }
}

/// What a search for a path comes to. A path that is not there may be an alias for another one;
/// that is followed as long as `hops` last.
pub open spec fn route(blob: Seq<u8>, x: Extent, path: Seq<u8>, hops: nat) -> Lookup
    decreases hops,
{
    match lookup(blob, x, path) {
        Lookup::Absent => match lookup(blob, x, dtb::text("/aliases")) {
            Lookup::Found(first) => match props_from(blob, x, first, Some(path)) {
                None => Lookup::Fault,
                Some(names) => match prop_of(names, path, 0) {
                    None => Lookup::Absent,
                    Some(value) => if !vstd::utf8::valid_utf8(value) {
                        Lookup::Absent
                    } else if hops == 0 {
                        Lookup::Fault
                    } else {
                        route(blob, x, trimmed(value), (hops - 1) as nat)
                    },
                },
            },
            other => other,
        },
        other => other,
    }
}

/// The search of the nodes from `i` on for a `compatible` string meets no fault before the node
/// that has it.
pub open spec fn finds_compatible(blob: Seq<u8>, x: Extent, w: Walk, i: int, item: Seq<u8>) -> bool
    decreases w.nodes.len() - i,
{
    if i < 0 || i >= w.nodes.len() {
        w.sound
    } else {
        match props_from(blob, x, w.nodes[i].first as int, None) {
            None => false,
            Some(props) => is_compatible(props, item) || finds_compatible(blob, x, w, i + 1, item),
        }
    }
}

/// The search of the nodes from `i` on for a `phandle` meets no fault before the node that has
/// it, and the cell counts of that node can be read. Of the others only the properties up to a
/// `phandle` are.
pub open spec fn finds_phandle(blob: Seq<u8>, x: Extent, w: Walk, i: int, phandle: u32) -> bool
    decreases w.nodes.len() - i,
{
    if i < 0 || i >= w.nodes.len() {
        w.sound
    } else {
        match props_from(blob, x, w.nodes[i].first as int, Some(dtb::text("phandle"))) {
            None => false,
            Some(props) => if has_phandle(props, phandle) {
                cells_ok(blob, x, w.nodes[i].first as int)
            } else {
                finds_phandle(blob, x, w, i + 1, phandle)
            },
        }
    }
}

/// A node with this `compatible` string can be searched for, and its properties read.
pub open spec fn searchable(blob: Seq<u8>, item: Seq<u8>) -> bool {
    match extent_of(blob) {
        Some(x) => finds_compatible(blob, x, walk_of(blob, x), 0, item),
        None => false,
    }
}

/// A node with this `phandle` can be searched for, and its properties and cell counts read.
pub open spec fn reachable(blob: Seq<u8>, phandle: u32) -> bool {
    match extent_of(blob) {
        Some(x) => finds_phandle(blob, x, walk_of(blob, x), 0, phandle),
        None => false,
    }
}

/// All nodes of the blob can be listed, and their properties read.
pub open spec fn listable(blob: Seq<u8>) -> bool {
    match extent_of(blob) {
        Some(x) => {
            let w = walk_of(blob, x);
            w.sound && forall|i: int|
                0 <= i < w.nodes.len() ==> props_ok(
                    blob,
                    x,
                    (#[trigger] w.nodes[i]).first as int,
                )
        },
        None => false,
    }
}

/// Node `i` of the blob can be listed and its properties read, and the cell counts of the node
/// that it lies in.
pub open spec fn measurable(blob: Seq<u8>, i: int) -> bool {
    match extent_of(blob) {
        Some(x) => {
            let w = walk_of(blob, x);
            0 <= i < w.nodes.len() && props_ok(blob, x, w.nodes[i].first as int) && match
                w.nodes[i].parent {
                Some(parent) => cells_ok(blob, x, parent as int),
                None => true,
            }
        },
        None => false,
    }
}

/// The node at `path` can be looked for, and its properties read up to the one called `name`.
pub open spec fn navigable(blob: Seq<u8>, path: Seq<u8>, name: Seq<u8>) -> bool {
    match extent_of(blob) {
        Some(x) => match route(blob, x, path, MAX_WALK_DEPTH as nat) {
            Lookup::Found(first) => props_from(blob, x, first, Some(name)) is Some,
            Lookup::Absent => true,
            Lookup::Fault => false,
        },
        None => false,
    }
}

/// The node at `path` can be looked for, and its children read.
pub open spec fn explorable(blob: Seq<u8>, path: Seq<u8>) -> bool {
    match extent_of(blob) {
        Some(x) => match route(blob, x, path, MAX_WALK_DEPTH as nat) {
            Lookup::Found(first) => children_ok(blob, x, first),
            Lookup::Absent => true,
            Lookup::Fault => false,
        },
        None => false,
    }
}

/// Calls `core::str::from_utf8`. Claimed: it accepts exactly the bytes that are UTF-8.
#[verifier::external_body]
fn is_utf8(bytes: &[u8]) -> (r: bool)
    ensures
        r == vstd::utf8::valid_utf8(bytes@),
{
    match core::str::from_utf8(bytes) {
        Ok(_) => true,
        Err(_) => false,
    }
}

fn extent(blob: &[u8]) -> (r: Option<Extent>)
    ensures
        r == extent_of(blob@),
        r is Some ==> fits(r->0, blob@),
{
    if blob.len() < 40 || read_be(blob, 0) != FDT_MAGIC {
        return None;
    }
    let len: u64 = blob.len() as u64;
    let structure: u64 = read_be(blob, 8) as u64;
    let strings: u64 = read_be(blob, 12) as u64;
    let strings_end: u64 = strings + read_be(blob, 32) as u64;
    let structure_end: u64 = structure + read_be(blob, 36) as u64;
    if read_be(blob, 4) as u64 > len || structure_end > len || strings_end > len {
        return None;
    }
    Some(
        Extent {
            structure: structure as usize,
            structure_end: structure_end as usize,
            strings: strings as usize,
            strings_end: strings_end as usize,
        },
    )
}

/// The blocks lie inside the blob.
spec fn fits(x: Extent, blob: Seq<u8>) -> bool {
    &&& x.structure <= x.structure_end <= blob.len()
    &&& x.strings <= x.strings_end <= blob.len()
}

/// The token at `pos`, if a whole one is left.
fn read_tag(blob: &[u8], x: &Extent, pos: usize) -> (r: Option<u32>)
    requires
        fits(*x, blob@),
    ensures
        tag(blob@, *x, pos as int) == (match r {
            Some(token) => Some(token as int),
            None => None,
        }),
        r is Some ==> pos + 4 <= x.structure_end,
{
    if pos <= x.structure_end && x.structure_end - pos >= 4 {
        Some(read_be(blob, pos))
    } else {
        None
    }
}

/// Whether the token at `pos` is `token`.
fn is_at(blob: &[u8], x: &Extent, pos: usize, token: u32) -> (r: bool)
    requires
        fits(*x, blob@),
    ensures
        r == (tag(blob@, *x, pos as int) == Some(token as int)),
        r ==> pos + 4 <= x.structure_end,
{
    match read_tag(blob, x, pos) {
        Some(found) => found == token,
        None => false,
    }
}

/// The text from `from` on, up to a zero byte before `end`.
fn read_text<'a>(blob: &'a [u8], from: usize, end: usize) -> (r: Option<&'a [u8]>)
    requires
        end <= blob@.len(),
    ensures
        match r {
            Some(text) => text_at(blob@, from as int, end as int) == Some(text@) && from
                + text@.len() < end,
            None => text_at(blob@, from as int, end as int) is None,
        },
{
    match dtb::find_nul(blob, from) {
        Some(nul) => if nul < end {
            Some(slice_subrange(blob, from, nul))
        } else {
            None
        },
        None => None,
    }
}

/// The offset behind `len` bytes at `pos` and their padding.
fn padded(x: &Extent, pos: usize, len: usize) -> (r: usize)
    requires
        pos + len <= x.structure_end,
    ensures
        r == clip(*x, pos + (len + 3) / 4 * 4),
        pos + len <= r <= x.structure_end,
{
    let pad: usize = (4 - len % 4) % 4;
    if x.structure_end - (pos + len) <= pad {
        x.structure_end
    } else {
        pos + len + pad
    }
}

pub proof fn lemma_nul_from(bytes: Seq<u8>, from: int)
    ensures
        match dtb::nul_from(bytes, from) {
            Some(nul) => from <= nul < bytes.len(),
            None => true,
        },
    decreases bytes.len() - from,
{
    if 0 <= from < bytes.len() && bytes[from] != 0 {
        lemma_nul_from(bytes, from + 1);
    }
}

/// Name and value of the property at `pos`, if it can be read, and the offset behind it.
fn read_prop<'a>(blob: &'a [u8], x: &Extent, pos: usize) -> (r: Option<
    (&'a [u8], &'a [u8], usize),
>)
    requires
        fits(*x, blob@),
        pos + 4 <= x.structure_end,
    ensures
        match r {
            Some((name, value, next)) => prop_ok(blob@, *x, pos as int) && prop_name(
                blob@,
                *x,
                pos as int,
            ) == Some(name@) && value@ == prop_value(blob@, pos as int) && next == after_prop(
                blob@,
                *x,
                pos as int,
            ) && pos + 12 <= next <= x.structure_end,
            None => !prop_ok(blob@, *x, pos as int),
        },
{
    if x.structure_end - pos < 12 {
        return None;
    }
    let len: usize = read_be(blob, pos + 4) as usize;
    let at: usize = pos + 12;
    let offset: usize = read_be(blob, pos + 8) as usize;
    if len > x.structure_end - at || offset > x.strings_end - x.strings {
        proof {
            lemma_nul_from(blob@, x.strings + offset);
        }
        return None;
    }
    let name: &[u8] = match read_text(blob, x.strings + offset, x.strings_end) {
        None => {
            return None;
        },
        Some(name) => name,
    };
    if !is_utf8(name) {
        return None;
    }
    Some((name, slice_subrange(blob, at, at + len), padded(x, at, len)))
}

/// The name of the node that begins at `pos`, and the offset behind it.
fn read_node<'a>(blob: &'a [u8], x: &Extent, pos: usize) -> (r: Option<(&'a [u8], usize)>)
    requires
        fits(*x, blob@),
        pos + 4 <= x.structure_end,
    ensures
        match r {
            Some((name, next)) => node_name(blob@, *x, pos as int) == Some(name@) && next
                == after_name(*x, pos as int, name@) && pos + 4 < next <= x.structure_end,
            None => node_name(blob@, *x, pos as int) is None,
        },
{
    match read_text(blob, pos + 4, x.structure_end) {
        None => None,
        Some(name) => Some((name, padded(x, pos + 4, name.len() + 1))),
    }
}

fn skip_nops(blob: &[u8], x: &Extent, start: usize) -> (r: usize)
    requires
        fits(*x, blob@),
        start <= x.structure_end,
    ensures
        r == past_nops(blob@, *x, start as int),
        start <= r <= x.structure_end,
{
    let mut pos: usize = start;
    while is_at(blob, x, pos, FDT_NOP)
        invariant
            fits(*x, blob@),
            start <= pos <= x.structure_end,
            past_nops(blob@, *x, pos as int) == past_nops(blob@, *x, start as int),
        decreases x.structure_end - pos,
    {
        pos = pos + 4;
    }
    pos
}

fn skip_props(blob: &[u8], x: &Extent, start: usize) -> (r: Option<usize>)
    requires
        fits(*x, blob@),
        start <= x.structure_end,
    ensures
        match r {
            Some(next) => past_props(blob@, *x, start as int) == Some(next as int) && start <= next
                <= x.structure_end,
            None => past_props(blob@, *x, start as int) is None,
        },
{
    let mut pos: usize = start;
    while is_at(blob, x, pos, FDT_PROP)
        invariant
            fits(*x, blob@),
            start <= pos <= x.structure_end,
            past_props(blob@, *x, pos as int) == past_props(blob@, *x, start as int),
        decreases x.structure_end - pos,
    {
        pos = match read_prop(blob, x, pos) {
            None => {
                return None;
            },
            Some((_, _, next)) => next,
        };
    }
    Some(pos)
}

/// Names and values.
spec fn pairs(props: Seq<(&[u8], &[u8])>) -> Seq<(Seq<u8>, Seq<u8>)> {
    props.map_values(|p: (&[u8], &[u8])| (p.0@, p.1@))
}

spec fn bound(last: Option<&[u8]>) -> Option<Seq<u8>> {
    match last {
        Some(name) => Some(name@),
        None => None,
    }
}

/// The properties from `start` on, if they can be read.
fn read_props<'a>(blob: &'a [u8], x: &Extent, start: usize) -> (r: Option<
    Vec<(&'a [u8], &'a [u8])>,
>)
    requires
        fits(*x, blob@),
        start <= x.structure_end,
    ensures
        match r {
            Some(props) => props_from(blob@, *x, start as int, None) == Some(pairs(props@)),
            None => props_from(blob@, *x, start as int, None) is None,
        },
{
    read_props_until(blob, x, start, None)
}

/// The properties from `start` on, if they can be read, up to one called `last`.
fn read_props_to<'a>(blob: &'a [u8], x: &Extent, start: usize, last: &[u8]) -> (r: Option<
    Vec<(&'a [u8], &'a [u8])>,
>)
    requires
        fits(*x, blob@),
        start <= x.structure_end,
    ensures
        match r {
            Some(props) => props_from(blob@, *x, start as int, Some(last@)) == Some(pairs(props@)),
            None => props_from(blob@, *x, start as int, Some(last@)) is None,
        },
{
    read_props_until(blob, x, start, Some(last))
}

fn read_props_until<'a>(blob: &'a [u8], x: &Extent, start: usize, last: Option<&[u8]>) -> (r: Option<
    Vec<(&'a [u8], &'a [u8])>,
>)
    requires
        fits(*x, blob@),
        start <= x.structure_end,
    ensures
        match r {
            Some(props) => props_from(blob@, *x, start as int, bound(last)) == Some(pairs(props@)),
            None => props_from(blob@, *x, start as int, bound(last)) is None,
        },
{
    let mut pos: usize = start;
    let mut out: Vec<(&'a [u8], &'a [u8])> = Vec::new();
    assert(pairs(out@) =~= Seq::empty());
    let ghost whole = props_from(blob@, *x, start as int, bound(last));
    proof {
        if let Some(rest) = whole {
            assert(pairs(out@) + rest =~= rest);
        }
    }
    loop
        invariant
            fits(*x, blob@),
            pos <= x.structure_end,
            whole == props_from(blob@, *x, start as int, bound(last)),
            whole == (match props_from(blob@, *x, pos as int, bound(last)) {
                Some(rest) => Some(pairs(out@) + rest),
                None => None,
            }),
        decreases x.structure_end - pos,
    {
        let ghost so_far = pairs(out@);
        if is_at(blob, x, pos, FDT_NOP) {
            pos = pos + 4;
        } else if is_at(blob, x, pos, FDT_PROP) {
            let (name, value, next): (&[u8], &[u8], usize) = match read_prop(blob, x, pos) {
                None => {
                    return None;
                },
                Some(prop) => prop,
            };
            out.push((name, value));
            let ghost here = seq![(name@, value@)];
            assert(pairs(out@) =~= so_far + here);
            if let Some(item) = last {
                if dtb::same(name, item) {
                    return Some(out);
                }
            }
            proof {
                if let Some(rest) = props_from(blob@, *x, next as int, bound(last)) {
                    assert(so_far + (here + rest) =~= (so_far + here) + rest);
                }
            }
            pos = next;
        } else {
            assert(so_far + Seq::<(Seq<u8>, Seq<u8>)>::empty() =~= so_far);
            return Some(out);
        }
    }
}

fn can_read_props(blob: &[u8], x: &Extent, start: usize) -> (r: bool)
    requires
        fits(*x, blob@),
        start <= x.structure_end,
    ensures
        r == props_ok(blob@, *x, start as int),
{
    read_props(blob, x, start).is_some()
}

fn can_read_cells(blob: &[u8], x: &Extent, start: usize) -> (r: bool)
    requires
        fits(*x, blob@),
        start <= x.structure_end,
    ensures
        r == cells_ok(blob@, *x, start as int),
{
    let props: Vec<(&[u8], &[u8])> = match read_props(blob, x, start) {
        None => {
            return false;
        },
        Some(props) => props,
    };
    let ghost all = pairs(props@);
    let mut i: usize = 0;
    while i < props.len()
        invariant
            i <= props@.len(),
            all == pairs(props@),
            props_from(blob@, *x, start as int, None) == Some(all),
            forall|j: int|
                0 <= j < i ==> counts_cells((#[trigger] all[j]).0, all[j].1.len() as int),
        decreases props@.len() - i,
    {
        let (name, value): (&[u8], &[u8]) = props[i];
        assert(all[i as int] == (name@, value@));
        if value.len() < 4 && (dtb::is_text(name, "#address-cells") || dtb::is_text(
            name,
            "#size-cells",
        )) {
            assert(!counts_cells(all[i as int].0, all[i as int].1.len() as int));
            assert(!all_count(all));
            return false;
        }
        i = i + 1;
    }
    true
}

/// The value of the first property called `name`.
fn first_value<'a>(props: &Vec<(&'a [u8], &'a [u8])>, name: &[u8]) -> (r: Option<&'a [u8]>)
    ensures
        match r {
            Some(value) => prop_of(pairs(props@), name@, 0) == Some(value@),
            None => prop_of(pairs(props@), name@, 0) is None,
        },
{
    let mut i: usize = 0;
    while i < props.len()
        invariant
            i <= props@.len(),
            prop_of(pairs(props@), name@, 0) == prop_of(pairs(props@), name@, i as int),
        decreases props@.len() - i,
    {
        assert(pairs(props@)[i as int] == (props@[i as int].0@, props@[i as int].1@));
        if dtb::same(props[i].0, name) {
            return Some(props[i].1);
        }
        i = i + 1;
    }
    None
}

/// The value of the last property called `name`.
fn last_value<'a>(props: &Vec<(&'a [u8], &'a [u8])>, name: &str) -> (r: Option<&'a [u8]>)
    ensures
        match r {
            Some(value) => last_of(pairs(props@), dtb::text(name)) == Some(value@),
            None => last_of(pairs(props@), dtb::text(name)) is None,
        },
{
    let ghost all = pairs(props@);
    let mut n: usize = props.len();
    assert(all.take(n as int) =~= all);
    while n > 0
        invariant
            n <= props@.len(),
            all == pairs(props@),
            last_of(all, dtb::text(name)) == last_of(all.take(n as int), dtb::text(name)),
        decreases n,
    {
        let (found, value): (&[u8], &[u8]) = props[n - 1];
        assert(all.take(n as int).last() == (found@, value@));
        assert(all.take(n as int).drop_last() =~= all.take(n - 1));
        if dtb::is_text(found, name) {
            return Some(value);
        }
        n = n - 1;
    }
    None
}

fn has_string(list: &[u8], item: &str) -> (r: bool)
    ensures
        r == lists_string(list@, 0, dtb::text(item)),
{
    let mut from: usize = 0;
    loop
        invariant
            from <= list@.len(),
            lists_string(list@, from as int, dtb::text(item)) == lists_string(
                list@,
                0,
                dtb::text(item),
            ),
        decreases list@.len() - from,
    {
        let len: usize = list.len();
        if from >= len {
            return false;
        }
        match dtb::find_nul(list, from) {
            Some(nul) => {
                let here: &[u8] = slice_subrange(list, from, nul);
                if !is_utf8(here) {
                    return false;
                }
                if dtb::is_text(here, item) {
                    return true;
                }
                from = nul + 1;
            },
            None => {
                let here: &[u8] = slice_subrange(list, from, len);
                return is_utf8(here) && dtb::is_text(here, item);
            },
        }
    }
}

/// The places of the nodes of the blob, as far as they can be listed, and whether the list ends
/// without a fault.
fn walk_nodes(blob: &[u8], x: &Extent) -> (r: (Vec<Place>, bool))
    requires
        fits(*x, blob@),
    ensures
        walk_of(blob@, *x) == (Walk { nodes: r.0@, sound: r.1 }),
        places_in(r.0@, *x),
{
    let mut pos: usize = x.structure;
    let mut open: Vec<usize> = Vec::new();
    let mut nodes: Vec<Place> = Vec::new();
    let ghost whole = walk_of(blob@, *x);
    assert(open@ =~= Seq::empty());
    assert(nodes@ + whole.nodes =~= whole.nodes);
    loop
        invariant
            fits(*x, blob@),
            pos <= x.structure_end,
            open@.len() <= MAX_WALK_DEPTH,
            places_in(nodes@, *x),
            forall|i: int| 0 <= i < open@.len() ==> #[trigger] open@[i] <= x.structure_end,
            whole == walk_of(blob@, *x),
            whole.nodes == nodes@ + walk(blob@, *x, pos as int, open@).nodes,
            whole.sound == walk(blob@, *x, pos as int, open@).sound,
        decreases x.structure_end - pos,
    {
        let ghost rest = walk(blob@, *x, pos as int, open@);
        let ghost so_far = nodes@;
        if is_at(blob, x, pos, FDT_END_NODE) {
            if open.len() == 0 {
                assert(so_far + rest.nodes =~= so_far);
                return (nodes, false);
            }
            let ghost before = open@;
            open.pop();
            assert(open@ =~= before.drop_last());
            pos = pos + 4;
            continue;
        }
        let begin: usize = skip_nops(blob, x, pos);
        if !is_at(blob, x, begin, FDT_BEGIN_NODE) {
            assert(so_far + rest.nodes =~= so_far);
            return (nodes, true);
        }
        let (name, first): (&[u8], usize) = match read_node(blob, x, begin) {
            None => {
                assert(so_far + rest.nodes =~= so_far);
                return (nodes, false);
            },
            Some(node) => node,
        };
        if !is_utf8(name) || open.len() >= MAX_WALK_DEPTH {
            assert(so_far + rest.nodes =~= so_far);
            return (nodes, false);
        }
        let run: usize = skip_nops(blob, x, first);
        let next: usize = match skip_props(blob, x, run) {
            None => {
                assert(so_far + rest.nodes =~= so_far);
                return (nodes, false);
            },
            Some(next) => next,
        };
        if read_tag(blob, x, next).is_none() {
            assert(so_far + rest.nodes =~= so_far);
            return (nodes, true);
        }
        let parent: Option<usize> = if open.len() > 0 {
            Some(open[open.len() - 1])
        } else {
            None
        };
        let place = Place { first, parent };
        nodes.push(place);
        let ghost after = walk(blob@, *x, next as int, open@.push(first));
        assert(rest.nodes =~= seq![place] + after.nodes);
        assert(so_far + (seq![place] + after.nodes) =~= nodes@ + after.nodes);
        open.push(first);
        pos = next;
    }
}

/// The places lie in the structure block.
spec fn places_in(nodes: Seq<Place>, x: Extent) -> bool {
    forall|i: int|
        0 <= i < nodes.len() ==> (#[trigger] nodes[i]).first <= x.structure_end && (
        nodes[i].parent is Some ==> nodes[i].parent->0 <= x.structure_end)
}

/// Whether a node with this `compatible` string can be searched for, and its properties read.
pub fn can_search(blob: &[u8], item: &str) -> (r: bool)
    ensures
        r == searchable(blob@, dtb::text(item)),
{
    let x: Extent = match extent(blob) {
        None => {
            return false;
        },
        Some(x) => x,
    };
    let (nodes, sound): (Vec<Place>, bool) = walk_nodes(blob, &x);
    let ghost w = walk_of(blob@, x);
    let mut i: usize = 0;
    while i < nodes.len()
        invariant
            fits(x, blob@),
            extent_of(blob@) == Some(x),
            w == walk_of(blob@, x),
            w == (Walk { nodes: nodes@, sound }),
            places_in(nodes@, x),
            i <= nodes@.len(),
            searchable(blob@, dtb::text(item)) == finds_compatible(
                blob@,
                x,
                w,
                i as int,
                dtb::text(item),
            ),
        decreases nodes@.len() - i,
    {
        let props: Vec<(&[u8], &[u8])> = match read_props(blob, &x, nodes[i].first) {
            None => {
                return false;
            },
            Some(props) => props,
        };
        if let Some(list) = last_value(&props, "compatible") {
            if has_string(list, item) {
                return true;
            }
        }
        i = i + 1;
    }
    sound
}

/// Whether a node with this `phandle` can be searched for, and its properties and cell counts
/// read.
pub fn can_reach(blob: &[u8], phandle: u32) -> (r: bool)
    ensures
        r == reachable(blob@, phandle),
{
    let x: Extent = match extent(blob) {
        None => {
            return false;
        },
        Some(x) => x,
    };
    let (nodes, sound): (Vec<Place>, bool) = walk_nodes(blob, &x);
    let ghost w = walk_of(blob@, x);
    let mut i: usize = 0;
    while i < nodes.len()
        invariant
            fits(x, blob@),
            extent_of(blob@) == Some(x),
            w == walk_of(blob@, x),
            w == (Walk { nodes: nodes@, sound }),
            places_in(nodes@, x),
            i <= nodes@.len(),
            reachable(blob@, phandle) == finds_phandle(blob@, x, w, i as int, phandle),
        decreases nodes@.len() - i,
    {
        let props: Vec<(&[u8], &[u8])> = match read_props_to(
            blob,
            &x,
            nodes[i].first,
            "phandle".as_bytes(),
        ) {
            None => {
                return false;
            },
            Some(props) => props,
        };
        if let Some(value) = first_value(&props, "phandle".as_bytes()) {
            if value.len() >= 4 && read_be(value, 0) == phandle {
                return can_read_cells(blob, &x, nodes[i].first);
            }
        }
        i = i + 1;
    }
    sound
}

/// Whether all nodes of the blob can be listed, and their properties read.
pub fn can_list(blob: &[u8]) -> (r: bool)
    ensures
        r == listable(blob@),
{
    let x: Extent = match extent(blob) {
        None => {
            return false;
        },
        Some(x) => x,
    };
    let (nodes, sound): (Vec<Place>, bool) = walk_nodes(blob, &x);
    let ghost w = walk_of(blob@, x);
    let mut i: usize = 0;
    while i < nodes.len()
        invariant
            fits(x, blob@),
            extent_of(blob@) == Some(x),
            w == walk_of(blob@, x),
            w == (Walk { nodes: nodes@, sound }),
            places_in(nodes@, x),
            i <= nodes@.len(),
            forall|j: int|
                0 <= j < i ==> props_ok(blob@, x, (#[trigger] w.nodes[j]).first as int),
        decreases nodes@.len() - i,
    {
        if !can_read_props(blob, &x, nodes[i].first) {
            assert(!props_ok(blob@, x, w.nodes[i as int].first as int));
            return false;
        }
        i = i + 1;
    }
    sound
}

/// Whether node `i` of the blob can be listed and its properties read, and the cell counts of
/// the node that it lies in.
pub fn can_measure(blob: &[u8], i: usize) -> (r: bool)
    ensures
        r == measurable(blob@, i as int),
{
    let x: Extent = match extent(blob) {
        None => {
            return false;
        },
        Some(x) => x,
    };
    let (nodes, _): (Vec<Place>, bool) = walk_nodes(blob, &x);
    if i >= nodes.len() {
        return false;
    }
    let place: Place = nodes[i];
    can_read_props(blob, &x, place.first) && match place.parent {
        Some(parent) => can_read_cells(blob, &x, parent),
        None => true,
    }
}

fn skip_node(blob: &[u8], x: &Extent, start: usize) -> (r: Option<usize>)
    requires
        fits(*x, blob@),
    ensures
        match r {
            Some(next) => skips(blob@, *x, start as int, 0, Phase::Properties) == Some(
                next as int,
            ) && start < next <= x.structure_end,
            None => skips(blob@, *x, start as int, 0, Phase::Properties) is None,
        },
{
    let mut pos: usize = start;
    let mut depth: usize = 0;
    let mut phase: Phase = Phase::Properties;
    loop
        invariant
            fits(*x, blob@),
            start <= pos,
            depth <= MAX_WALK_DEPTH,
            skips(blob@, *x, pos as int, depth as int, phase) == skips(
                blob@,
                *x,
                start as int,
                0,
                Phase::Properties,
            ),
        decreases x.structure_end - pos,
    {
        let token: u32 = match read_tag(blob, x, pos) {
            None => {
                return None;
            },
            Some(token) => token,
        };
        if token == FDT_BEGIN_NODE {
            let (name, next): (&[u8], usize) = match read_node(blob, x, pos) {
                None => {
                    return None;
                },
                Some(node) => node,
            };
            if !is_utf8(name) || depth >= MAX_WALK_DEPTH || phase == Phase::Padding {
                return None;
            }
            pos = next;
            depth = depth + 1;
            phase = Phase::Properties;
        } else if token == FDT_PROP {
            if depth == 0 || phase != Phase::Properties {
                return None;
            }
            pos = match read_prop(blob, x, pos) {
                None => {
                    return None;
                },
                Some((_, _, next)) => next,
            };
        } else if token == FDT_NOP {
            if depth == 0 {
                return None;
            }
            pos = pos + 4;
            phase = Phase::Padding;
        } else if token == FDT_END_NODE {
            if depth == 0 {
                return None;
            }
            if depth == 1 {
                return Some(pos + 4);
            }
            pos = pos + 4;
            depth = depth - 1;
            phase = Phase::Children;
        } else {
            return None;
        }
    }
}

/// What a search comes to.
#[derive(Clone, Copy, Debug, PartialEq, Eq, Structural)]
enum Outcome {
    Found(usize),
    Past(usize),
    Absent,
    Fault,
}

spec fn agrees(outcome: Outcome, found: Lookup, x: Extent) -> bool {
    match outcome {
        Outcome::Found(first) => found == Lookup::Found(first as int) && first <= x.structure_end,
        Outcome::Past(_) => false,
        Outcome::Absent => found == Lookup::Absent,
        Outcome::Fault => found == Lookup::Fault,
    }
}

spec fn agrees_inside(outcome: Outcome, found: Search, x: Extent) -> bool {
    match outcome {
        Outcome::Found(first) => found == Search::Found(first as int) && first <= x.structure_end,
        Outcome::Past(next) => found == Search::Past(next as int) && next <= x.structure_end,
        Outcome::Absent => false,
        Outcome::Fault => found == Search::Fault,
    }
}

fn find_slash(path: &[u8]) -> (r: usize)
    ensures
        r == slash_from(path@, 0),
        r <= path@.len(),
{
    let mut i: usize = 0;
    while i < path.len() && path[i] != 0x2f
        invariant
            i <= path@.len(),
            slash_from(path@, i as int) == slash_from(path@, 0),
        decreases path@.len() - i,
    {
        i = i + 1;
    }
    i
}

fn has_unit(want: &[u8]) -> (r: bool)
    ensures
        r == want@.contains(0x40),
{
    let mut i: usize = 0;
    while i < want.len()
        invariant
            i <= want@.len(),
            forall|j: int| 0 <= j < i ==> want@[j] != 0x40,
        decreases want@.len() - i,
    {
        if want[i] == 0x40 {
            assert(want@[i as int] == 0x40);
            return true;
        }
        i = i + 1;
    }
    false
}

fn is_named(name: &[u8], want: &[u8]) -> (r: bool)
    ensures
        r == is_called(name@, want@),
{
    if has_unit(want) {
        return dtb::same(name, want);
    }
    if name.len() < want.len() {
        return false;
    }
    let start: &[u8] = slice_subrange(name, 0, want.len());
    assert(start@ =~= name@.take(want@.len() as int));
    dtb::same(start, want) && (name.len() == want.len() || name[want.len()] == 0x40)
}

fn find_in_node(blob: &[u8], x: &Extent, pos: usize, path: &[u8]) -> (r: Outcome)
    requires
        fits(*x, blob@),
        pos + 4 <= x.structure_end,
    ensures
        agrees_inside(r, search_node(blob@, *x, pos as int, path@), *x),
    decreases x.structure_end - pos, 0int,
{
    let (name, first): (&[u8], usize) = match read_node(blob, x, pos) {
        None => {
            return Outcome::Fault;
        },
        Some(node) => node,
    };
    if !is_utf8(name) {
        return Outcome::Past(pos + 4);
    }
    let slash: usize = find_slash(path);
    let want: &[u8] = slice_subrange(path, 0, slash);
    assert(want@ =~= component(path@));
    if !is_named(name, want) {
        return match skip_node(blob, x, pos) {
            None => Outcome::Fault,
            Some(next) => Outcome::Past(next),
        };
    }
    if slash >= path.len() || slash + 1 == path.len() {
        return Outcome::Found(first);
    }
    let rest: &[u8] = slice_subrange(path, slash + 1, path.len());
    assert(rest@ =~= below(path@));
    let begin: usize = skip_nops(blob, x, first);
    match skip_props(blob, x, begin) {
        None => Outcome::Fault,
        Some(children) => find_in_children(blob, x, children, rest),
    }
}

fn find_in_children(blob: &[u8], x: &Extent, start: usize, path: &[u8]) -> (r: Outcome)
    requires
        fits(*x, blob@),
        start <= x.structure_end,
    ensures
        agrees_inside(r, search_children(blob@, *x, start as int, path@), *x),
    decreases x.structure_end - start, 1int,
{
    let mut pos: usize = start;
    while is_at(blob, x, pos, FDT_BEGIN_NODE)
        invariant
            fits(*x, blob@),
            start <= pos <= x.structure_end,
            search_children(blob@, *x, pos as int, path@) == search_children(
                blob@,
                *x,
                start as int,
                path@,
            ),
        decreases x.structure_end - pos,
    {
        match find_in_node(blob, x, pos, path) {
            Outcome::Past(next) => {
                if next <= pos {
                    return Outcome::Fault;
                }
                pos = next;
            },
            other => {
                return other;
            },
        }
    }
    if read_tag(blob, x, pos).is_none() {
        return Outcome::Past(pos);
    }
    let end: usize = skip_nops(blob, x, pos);
    if read_tag(blob, x, end).is_none() {
        Outcome::Past(end)
    } else {
        Outcome::Past(end + 4)
    }
}

fn find_path(blob: &[u8], x: &Extent, path: &[u8]) -> (r: Outcome)
    requires
        fits(*x, blob@),
    ensures
        agrees(r, lookup(blob@, *x, path@), *x),
{
    let begin: usize = skip_nops(blob, x, x.structure);
    if !is_at(blob, x, begin, FDT_BEGIN_NODE) {
        return Outcome::Absent;
    }
    match find_in_node(blob, x, begin, path) {
        Outcome::Past(_) => Outcome::Absent,
        other => other,
    }
}

fn trim<'a>(text: &'a [u8]) -> (r: &'a [u8])
    ensures
        r@ == trimmed(text@),
{
    let mut n: usize = text.len();
    assert(text@.take(n as int) =~= text@);
    while n > 0 && text[n - 1] == 0
        invariant
            n <= text@.len(),
            trimmed(text@.take(n as int)) == trimmed(text@),
        decreases n,
    {
        assert(text@.take(n as int).drop_last() =~= text@.take(n - 1));
        assert(text@.take(n as int).last() == text@[n - 1]);
        n = n - 1;
    }
    proof {
        if n > 0 {
            assert(text@.take(n as int).last() == text@[n - 1]);
        }
    }
    let r: &[u8] = slice_subrange(text, 0, n);
    assert(r@ =~= text@.take(n as int));
    r
}

fn find_route(blob: &[u8], x: &Extent, path: &[u8]) -> (r: Outcome)
    requires
        fits(*x, blob@),
    ensures
        agrees(r, route(blob@, *x, path@, MAX_WALK_DEPTH as nat), *x),
{
    let mut at: &[u8] = path;
    let mut hops: usize = MAX_WALK_DEPTH;
    loop
        invariant
            fits(*x, blob@),
            route(blob@, *x, at@, hops as nat) == route(
                blob@,
                *x,
                path@,
                MAX_WALK_DEPTH as nat,
            ),
        decreases hops,
    {
        let direct: Outcome = find_path(blob, x, at);
        if direct != Outcome::Absent {
            return direct;
        }
        let first: usize = match find_path(blob, x, "/aliases".as_bytes()) {
            Outcome::Found(first) => first,
            other => {
                return other;
            },
        };
        let names: Vec<(&[u8], &[u8])> = match read_props_to(blob, x, first, at) {
            None => {
                return Outcome::Fault;
            },
            Some(names) => names,
        };
        let value: &[u8] = match first_value(&names, at) {
            None => {
                return Outcome::Absent;
            },
            Some(value) => value,
        };
        if !is_utf8(value) {
            return Outcome::Absent;
        }
        if hops == 0 {
            return Outcome::Fault;
        }
        at = trim(value);
        hops = hops - 1;
    }
}

/// Whether the node at `path` can be looked for, and its properties read up to the one called
/// `name`.
pub fn can_navigate(blob: &[u8], path: &str, name: &str) -> (r: bool)
    ensures
        r == navigable(blob@, dtb::text(path), dtb::text(name)),
{
    let x: Extent = match extent(blob) {
        None => {
            return false;
        },
        Some(x) => x,
    };
    match find_route(blob, &x, path.as_bytes()) {
        Outcome::Found(first) => read_props_to(blob, &x, first, name.as_bytes()).is_some(),
        Outcome::Absent => true,
        _ => false,
    }
}

/// Whether the node at `path` can be looked for, and its children read.
pub fn can_explore(blob: &[u8], path: &str) -> (r: bool)
    ensures
        r == explorable(blob@, dtb::text(path)),
{
    let x: Extent = match extent(blob) {
        None => {
            return false;
        },
        Some(x) => x,
    };
    let first: usize = match find_route(blob, &x, path.as_bytes()) {
        Outcome::Found(first) => first,
        Outcome::Absent => {
            return true;
        },
        _ => {
            return false;
        },
    };
    let run: usize = skip_nops(blob, &x, first);
    let mut pos: usize = match skip_props(blob, &x, run) {
        None => {
            return false;
        },
        Some(next) => next,
    };
    if read_tag(blob, &x, pos).is_none() {
        return false;
    }
    loop
        invariant
            fits(x, blob@),
            pos <= x.structure_end,
            siblings_ok(blob@, x, pos as int) == explorable(blob@, dtb::text(path)),
        decreases x.structure_end - pos,
    {
        let begin: usize = skip_nops(blob, &x, pos);
        if !is_at(blob, &x, begin, FDT_BEGIN_NODE) {
            return true;
        }
        let (name, inside): (&[u8], usize) = match read_node(blob, &x, begin) {
            None => {
                return false;
            },
            Some(node) => node,
        };
        if !is_utf8(name) {
            return true;
        }
        pos = match skip_node(blob, &x, begin) {
            None => {
                return false;
            },
            Some(next) => next,
        };
        if !can_read_props(blob, &x, inside) {
            return false;
        }
    }
}

/// The name and value of each property of a node, in order.
pub open spec fn props_view(props: Seq<(Vec<u8>, Vec<u8>)>) -> Seq<(Seq<u8>, Seq<u8>)> {
    props.map_values(|p: (Vec<u8>, Vec<u8>)| (p.0@, p.1@))
}

/// The value of the first property from `from` on that is called `name`.
pub open spec fn prop_of(props: Seq<(Seq<u8>, Seq<u8>)>, name: Seq<u8>, from: int) -> Option<
    Seq<u8>,
>
    decreases props.len() - from,
{
    if from < 0 || from >= props.len() {
        None
    } else if props[from].0 == name {
        Some(props[from].1)
    } else {
        prop_of(props, name, from + 1)
    }
}

/// The value of a property of a node.
pub fn property<'a>(props: &'a Vec<(Vec<u8>, Vec<u8>)>, name: &str) -> (r: Option<&'a [u8]>)
    ensures
        match r {
            Some(value) => prop_of(props_view(props@), dtb::text(name), 0) == Some(value@),
            None => prop_of(props_view(props@), dtb::text(name), 0) is None,
        },
{
    let mut i: usize = 0;
    while i < props.len()
        invariant
            i <= props@.len(),
            prop_of(props_view(props@), dtb::text(name), 0) == prop_of(
                props_view(props@),
                dtb::text(name),
                i as int,
            ),
        decreases props@.len() - i,
    {
        assert(props_view(props@)[i as int] == (props@[i as int].0@, props@[i as int].1@));
        if dtb::is_text(props[i].0.as_slice(), name) {
            return Some(props[i].1.as_slice());
        }
        i = i + 1;
    }
    None
}

/// The properties of the first node that `fdt::Fdt::find_compatible` finds for one string.
pub uninterp spec fn fdt_compatible(blob: Seq<u8>, with: Seq<char>) -> Option<
    Seq<(Seq<u8>, Seq<u8>)>,
>;

/// The properties and the address cells of the node that `fdt::Fdt::find_phandle` finds.
pub uninterp spec fn fdt_phandle(blob: Seq<u8>, phandle: u32) -> Option<
    (Seq<(Seq<u8>, Seq<u8>)>, usize),
>;

/// The compatible strings of each node that `fdt::Fdt::all_nodes` yields.
pub uninterp spec fn fdt_compatibles(blob: Seq<u8>) -> Seq<Seq<Seq<u8>>>;

/// Address and size of the first entry that `fdt::node::FdtNode::reg` gives for a node of the
/// list.
pub uninterp spec fn fdt_reg(blob: Seq<u8>, i: int) -> Option<(u64, Option<u64>)>;

/// The value of a property of the node that `fdt::Fdt::find_node` finds.
pub uninterp spec fn fdt_value(blob: Seq<u8>, path: Seq<char>, name: Seq<char>) -> Option<Seq<u8>>;

/// Name and properties of each node that `fdt::node::FdtNode::children` yields for the node that
/// `fdt::Fdt::find_node` finds.
pub uninterp spec fn fdt_children(blob: Seq<u8>, path: Seq<char>) -> Option<
    Seq<(Seq<u8>, Seq<(Seq<u8>, Seq<u8>)>)>,
>;

pub open spec fn facts_view(
    facts: Seq<(Vec<Vec<u8>>, Option<(u64, Option<u64>)>)>,
) -> Seq<(Seq<Seq<u8>>, Option<(u64, Option<u64>)>)> {
    facts.map_values(
        |f: (Vec<Vec<u8>>, Option<(u64, Option<u64>)>)|
            (f.0@.map_values(|s: Vec<u8>| s@), f.1),
    )
}

pub open spec fn strings_view(lists: Seq<Vec<Vec<u8>>>) -> Seq<Seq<Seq<u8>>> {
    lists.map_values(|l: Vec<Vec<u8>>| l@.map_values(|s: Vec<u8>| s@))
}

pub open spec fn children_view(children: Seq<(Vec<u8>, Vec<(Vec<u8>, Vec<u8>)>)>) -> Seq<
    (Seq<u8>, Seq<(Seq<u8>, Seq<u8>)>),
> {
    children.map_values(|c: (Vec<u8>, Vec<(Vec<u8>, Vec<u8>)>)| (c.0@, props_view(c.1@)))
}

/// Calls `fdt::Fdt::find_compatible` and reads the properties of the node it gives. Claimed: on
/// a blob in which that search meets no fault the call returns, and blob and string alone decide
/// what.
#[verifier::external_body]
pub(crate) fn compatible_node(blob: &[u8], with: &str) -> (r: Option<Vec<(Vec<u8>, Vec<u8>)>>)
    requires
        searchable(blob@, dtb::text(with)),
    ensures
        match r {
            Some(props) => fdt_compatible(blob@, with@) == Some(props_view(props@)),
            None => fdt_compatible(blob@, with@) is None,
        },
{
    let tree = fdt::Fdt::new(blob).ok()?;
    let node = tree.find_compatible(&[with])?;
    Some(node.properties().map(|p| (p.name.as_bytes().to_vec(), p.value.to_vec())).collect())
}

/// Calls `fdt::Fdt::find_phandle` and reads properties and `cell_sizes` of the node it gives.
/// Claimed: on a blob in which that search meets no fault, and in which the node's cell counts
/// can be read, the call returns, and blob and handle alone decide what.
#[verifier::external_body]
pub(crate) fn phandle_node(blob: &[u8], phandle: u32) -> (r: Option<
    (Vec<(Vec<u8>, Vec<u8>)>, usize),
>)
    requires
        reachable(blob@, phandle),
    ensures
        match r {
            Some(node) => fdt_phandle(blob@, phandle) == Some((props_view(node.0@), node.1)),
            None => fdt_phandle(blob@, phandle) is None,
        },
{
    let tree = fdt::Fdt::new(blob).ok()?;
    let node = tree.find_phandle(phandle)?;
    let props = node.properties().map(|p| (p.name.as_bytes().to_vec(), p.value.to_vec()));
    Some((props.collect(), node.cell_sizes().address_cells))
}

/// Calls `fdt::Fdt::all_nodes` and reads `compatible` of each node it yields. Claimed: on a blob
/// whose nodes can be listed the call returns, and the blob alone decides what.
#[verifier::external_body]
pub(crate) fn all_compatibles(blob: &[u8]) -> (r: Vec<Vec<Vec<u8>>>)
    requires
        listable(blob@),
    ensures
        strings_view(r@) == fdt_compatibles(blob@),
{
    let mut lists = Vec::new();
    if let Ok(tree) = fdt::Fdt::new(blob) {
        for node in tree.all_nodes() {
            let strings = node.compatible().into_iter().flat_map(|list| list.all());
            lists.push(strings.map(|s| s.as_bytes().to_vec()).collect());
        }
    }
    lists
}

/// Calls `fdt::node::FdtNode::reg` on node `i` of those that `fdt::Fdt::all_nodes` yields.
/// Claimed: where the node can be listed and read, with the cell counts of the node that it lies
/// in, the call returns, and blob and number alone decide what. The crate cuts addresses to the
/// width of the machine, so that width is fixed here.
#[verifier::external_body]
pub(crate) fn node_reg(blob: &[u8], i: usize) -> (r: Option<(u64, Option<u64>)>)
    requires
        measurable(blob@, i as int),
        usize::BITS == 64,
    ensures
        r == fdt_reg(blob@, i as int),
{
    let tree = fdt::Fdt::new(blob).ok()?;
    let region = tree.all_nodes().nth(i)?.reg()?.next()?;
    Some((region.starting_address as u64, region.size.map(|size| size as u64)))
}

/// Calls `fdt::Fdt::find_node` and `fdt::node::FdtNode::property` on the node it gives. Claimed:
/// on a blob in which that search meets no fault the call returns, and blob, path and name alone
/// decide what.
#[verifier::external_body]
pub(crate) fn path_value(blob: &[u8], path: &str, name: &str) -> (r: Option<Vec<u8>>)
    requires
        navigable(blob@, dtb::text(path), dtb::text(name)),
    ensures
        match r {
            Some(value) => fdt_value(blob@, path@, name@) == Some(value@),
            None => fdt_value(blob@, path@, name@) is None,
        },
{
    let tree = fdt::Fdt::new(blob).ok()?;
    Some(tree.find_node(path)?.property(name)?.value.to_vec())
}

/// Calls `fdt::Fdt::find_node` and reads name and properties of the `children` of the node it
/// gives. Claimed: on a blob in which that search meets no fault, and in which the children can
/// be read, the call returns, and blob and path alone decide what.
#[verifier::external_body]
pub(crate) fn path_children(blob: &[u8], path: &str) -> (r: Option<
    Vec<(Vec<u8>, Vec<(Vec<u8>, Vec<u8>)>)>,
>)
    requires
        explorable(blob@, dtb::text(path)),
    ensures
        match r {
            Some(children) => fdt_children(blob@, path@) == Some(children_view(children@)),
            None => fdt_children(blob@, path@) is None,
        },
{
    let tree = fdt::Fdt::new(blob).ok()?;
    let node = tree.find_node(path)?;
    let read = |n: fdt::node::FdtNode| -> Vec<(Vec<u8>, Vec<u8>)> {
        n.properties().map(|p| (p.name.as_bytes().to_vec(), p.value.to_vec())).collect()
    };
    Some(node.children().map(|c| (c.name.as_bytes().to_vec(), read(c))).collect())
}

} // verus!
