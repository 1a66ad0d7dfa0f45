//! What is read of a platform: each device where the tree says it is.
use crate::abi::PciHostInfo;
use crate::boot::dtb::text;
use crate::laws::trees::{four_bytes, law_word_is_read_back};
use crate::resource::pci::{self, double};
use crate::resource::resources;
use vstd::prelude::*;

verus! {

/// A number as eight bytes, the most significant one first.
pub open spec fn eight_bytes(n: int) -> Seq<u8> {
    four_bytes(n / 0x1_0000_0000) + four_bytes(n % 0x1_0000_0000)
}

proof fn lemma_double(value: Seq<u8>, at: int, n: int)
    requires
        0 <= at,
        at + 8 <= value.len(),
        0 <= n < 0x1_0000_0000_0000_0000,
        value.subrange(at, at + 8) == eight_bytes(n),
    ensures
        double(value, at) == n,
{
    let h = n / 0x1_0000_0000;
    let l = n % 0x1_0000_0000;
    assert(n == h * 0x1_0000_0000 + l);
    assert(0 <= h < 0x1_0000_0000 && 0 <= l < 0x1_0000_0000);
    lemma_halves(value, at, four_bytes(h), four_bytes(l));
    law_word_is_read_back(value, at, h);
    law_word_is_read_back(value, at + 4, l);
}

proof fn lemma_halves(value: Seq<u8>, at: int, high: Seq<u8>, low: Seq<u8>)
    requires
        0 <= at,
        at + 8 <= value.len(),
        high.len() == 4,
        low.len() == 4,
        value.subrange(at, at + 8) == high + low,
    ensures
        value.subrange(at, at + 4) == high,
        value.subrange(at + 4, at + 8) == low,
{
    let b = value.subrange(at, at + 8);
    assert forall|i: int| 0 <= i < 4 implies value[at + i] == #[trigger] high[i] by {
        assert(b[i] == (high + low)[i]);
    }
    assert forall|i: int| 0 <= i < 4 implies value[at + 4 + i] == #[trigger] low[i] by {
        assert(b[4 + i] == (high + low)[4 + i]);
    }
    assert(value.subrange(at, at + 4) =~= high);
    assert(value.subrange(at + 4, at + 8) =~= low);
}

/// A window of a PCI host that was written into its ranges is read back: flags, the address on the
/// PCI side, the address on the processor's side, and the size.
pub proof fn law_pci_window_is_read_back(
    ranges: Seq<u8>,
    e: int,
    flags: int,
    child: int,
    parent: int,
    size: int,
)
    requires
        0 <= e,
        28 * e + 28 <= ranges.len(),
        0 <= flags < 0x1_0000_0000,
        0 <= child < 0x1_0000_0000_0000_0000,
        0 <= parent < 0x1_0000_0000_0000_0000,
        0 <= size < 0x1_0000_0000_0000_0000,
        ranges.subrange(28 * e, 28 * e + 4) == four_bytes(flags),
        ranges.subrange(28 * e + 4, 28 * e + 12) == eight_bytes(child),
        ranges.subrange(28 * e + 12, 28 * e + 20) == eight_bytes(parent),
        ranges.subrange(28 * e + 20, 28 * e + 28) == eight_bytes(size),
    ensures
        pci::range_at(ranges, e).flags == flags,
        pci::range_at(ranges, e).child_base == child,
        pci::range_at(ranges, e).parent_base == parent,
        pci::range_at(ranges, e).size == size,
{
    law_word_is_read_back(ranges, 28 * e, flags);
    lemma_double(ranges, 28 * e + 4, child);
    lemma_double(ranges, 28 * e + 12, parent);
    lemma_double(ranges, 28 * e + 20, size);
}

/// A host keeps its windows in their order, as many as there is room for.
pub proof fn law_pci_windows_are_kept(info: PciHostInfo, ranges: Seq<u8>, n: int, i: int)
    requires
        info.range_count == 0,
        0 <= i < n <= 3,
    ensures
        pci::with_ranges(info, ranges, n).range_count == n,
        pci::with_ranges(info, ranges, n).ranges@[i] == pci::range_at(ranges, i),
        pci::with_ranges(info, ranges, n).ecam_pa == info.ecam_pa,
        pci::with_ranges(info, ranges, n).ecam_size == info.ecam_size,
    decreases n,
{
    lemma_count(info, ranges, n - 1);
    if i < n - 1 {
        law_pci_windows_are_kept(info, ranges, n - 1, i);
    }
}

proof fn lemma_count(info: PciHostInfo, ranges: Seq<u8>, n: int)
    requires
        info.range_count == 0,
        0 <= n <= 3,
    ensures
        pci::with_ranges(info, ranges, n).range_count == n,
        pci::with_ranges(info, ranges, n).ecam_pa == info.ecam_pa,
        pci::with_ranges(info, ranges, n).ecam_size == info.ecam_size,
    decreases n,
{
    if n > 0 {
        lemma_count(info, ranges, n - 1);
    }
}

/// A node is of the kind of virtio devices.
pub open spec fn is_virtio(node: (Seq<Seq<u8>>, Option<(u64, Option<u64>)>)) -> bool {
    resources::among(node.0, text("virtio,mmio"))
}

/// The window of the virtio devices covers each of them, from the page that the first begins in to
/// the page that the last ends in, and no page more on either side.
pub proof fn law_virtio_window_fits(
    nodes: Seq<(Seq<Seq<u8>>, Option<(u64, Option<u64>)>)>,
)
    requires
        resources::virtio_window(nodes) is Some,
        nodes.len() < usize::MAX,
    ensures
        ({
            let window = resources::virtio_window(nodes)->0;
            &&& window.base % 4096 == 0
            &&& window.size % 4096 == 0
            &&& forall|i: int|
                0 <= i < nodes.len() && is_virtio(#[trigger] nodes[i]) ==> {
                    let (base, size) = nodes[i].1->0;
                    &&& nodes[i].1 is Some
                    &&& size is Some
                    &&& window.base <= base
                    &&& base + size->0 <= window.base + window.size
                }
            &&& exists|i: int|
                0 <= i < nodes.len() && is_virtio(#[trigger] nodes[i]) && (nodes[i].1->0).0
                    < window.base + 4096
            &&& exists|i: int|
                0 <= i < nodes.len() && is_virtio(#[trigger] nodes[i]) && (nodes[i].1->0).0 + (
                nodes[i].1->0).1->0 > window.base + window.size - 4096
        }),
{
    let span = resources::virtio_span(nodes, nodes.len() as int)->0;
    lemma_span(nodes, nodes.len() as int);
    crate::util::lemma_round_up(span.last as int, 4096);
    let window = resources::virtio_window(nodes)->0;
    assert forall|i: int| 0 <= i < nodes.len() && is_virtio(#[trigger] nodes[i]) implies {
        let (base, size) = nodes[i].1->0;
        &&& nodes[i].1 is Some
        &&& size is Some
        &&& window.base <= base
        &&& base + size->0 <= window.base + window.size
    } by {}
    let a = choose|i: int|
        0 <= i < nodes.len() && is_virtio(#[trigger] nodes[i]) && (nodes[i].1->0).0 == span.first;
    assert(is_virtio(nodes[a]));
    let b = choose|i: int|
        0 <= i < nodes.len() && is_virtio(#[trigger] nodes[i]) && (nodes[i].1->0).0 + (
        nodes[i].1->0).1->0 == span.last;
    assert(is_virtio(nodes[b]));
}

proof fn lemma_span(nodes: Seq<(Seq<Seq<u8>>, Option<(u64, Option<u64>)>)>, k: int)
    requires
        0 <= k <= nodes.len(),
        nodes.len() < usize::MAX,
        resources::virtio_span(nodes, k) is Some,
    ensures
        ({
            let span = resources::virtio_span(nodes, k)->0;
            &&& span.count <= k
            &&& forall|i: int|
                0 <= i < k && is_virtio(#[trigger] nodes[i]) ==> {
                    let (base, size) = nodes[i].1->0;
                    &&& nodes[i].1 is Some
                    &&& size is Some
                    &&& base + size->0 <= u64::MAX
                    &&& span.first <= base
                    &&& base + size->0 <= span.last
                }
            &&& span.count == 0 ==> span.first == u64::MAX && span.last == 0 && forall|i: int|
                0 <= i < k ==> !is_virtio(#[trigger] nodes[i])
            &&& span.count > 0 && span.first < u64::MAX ==> exists|i: int|
                0 <= i < k && is_virtio(#[trigger] nodes[i]) && (nodes[i].1->0).0 == span.first
            &&& span.count > 0 && span.last > 0 ==> exists|i: int|
                0 <= i < k && is_virtio(#[trigger] nodes[i]) && (nodes[i].1->0).0 + (
                nodes[i].1->0).1->0 == span.last
        }),
    decreases k,
{
    if k > 0 {
        lemma_span(nodes, k - 1);
        let before = resources::virtio_span(nodes, k - 1)->0;
        let span = resources::virtio_span(nodes, k)->0;
        let node = nodes[k - 1];
        if is_virtio(node) {
            let base = (node.1->0).0;
            let size = (node.1->0).1->0;
            assert(span == before.with(base, (base + size) as u64));
            if before.count > 0 && before.first < u64::MAX && span.first == before.first {
                let i = choose|i: int|
                    0 <= i < k - 1 && is_virtio(#[trigger] nodes[i]) && (nodes[i].1->0).0
                        == before.first;
                assert(is_virtio(nodes[i]));
            }
            if before.count > 0 && before.last > 0 && span.last == before.last {
                let i = choose|i: int|
                    0 <= i < k - 1 && is_virtio(#[trigger] nodes[i]) && (nodes[i].1->0).0 + (
                    nodes[i].1->0).1->0 == before.last;
                assert(is_virtio(nodes[i]));
            }
            assert(is_virtio(nodes[k - 1]));
        } else {
            assert(span == before);
            if before.count > 0 && before.first < u64::MAX {
                let i = choose|i: int|
                    0 <= i < k - 1 && is_virtio(#[trigger] nodes[i]) && (nodes[i].1->0).0
                        == before.first;
                assert(is_virtio(nodes[i]));
            }
            if before.count > 0 && before.last > 0 {
                let i = choose|i: int|
                    0 <= i < k - 1 && is_virtio(#[trigger] nodes[i]) && (nodes[i].1->0).0 + (
                    nodes[i].1->0).1->0 == before.last;
                assert(is_virtio(nodes[i]));
            }
        }
    }
}

/// How many of the first `k` children are processors that take part.
pub open spec fn processors_before(
    children: Seq<(Seq<u8>, Seq<(Seq<u8>, Seq<u8>)>)>,
    k: int,
) -> int
    decreases k,
{
    if k <= 0 {
        0
    } else {
        processors_before(children, k - 1) + if resources::is_cpu(children[k - 1]) {
            1int
        } else {
            0
        }
    }
}

/// Each processor that takes part is listed with its identifier, in the order of the tree.
pub proof fn law_processors_are_listed(
    children: Seq<(Seq<u8>, Seq<(Seq<u8>, Seq<u8>)>)>,
    cells: int,
    k: int,
)
    requires
        0 <= k <= children.len(),
        resources::cpus_of(children, cells, k) is Some,
    ensures
        ({
            let cpus = resources::cpus_of(children, cells, k)->0;
            &&& cpus.count == processors_before(children, k)
            &&& cpus.count <= 4
            &&& forall|i: int|
                0 <= i < k && resources::is_cpu(#[trigger] children[i]) ==> {
                    &&& 0 <= processors_before(children, i) < cpus.count
                    &&& Some(cpus.mpidrs@[processors_before(children, i)]) == resources::mpidr_of(
                        children[i].1,
                        cells,
                    )
                }
        }),
    decreases k,
{
    if k > 0 {
        law_processors_are_listed(children, cells, k - 1);
        let before = resources::cpus_of(children, cells, k - 1)->0;
        let cpus = resources::cpus_of(children, cells, k)->0;
        assert forall|i: int| 0 <= i < k && resources::is_cpu(#[trigger] children[i]) implies {
            &&& 0 <= processors_before(children, i) < cpus.count
            &&& Some(cpus.mpidrs@[processors_before(children, i)]) == resources::mpidr_of(
                children[i].1,
                cells,
            )
        } by {
            if i < k - 1 {
                assert(Some(before.mpidrs@[processors_before(children, i)]) == resources::mpidr_of(
                    children[i].1,
                    cells,
                ));
            }
        }
    }
}

} // verus!
