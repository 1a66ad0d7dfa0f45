//! What goes out on the console says what was meant, and what firmware listed is kept.
use crate::boot_info::{free_pages, BootInfo, MemoryEntry, CONVENTIONAL_MEMORY};
use crate::uart::{digit, hex_text, weight, with_returns};
use vstd::prelude::*;

verus! {

/// What a hexadecimal digit in lower case stands for.
pub open spec fn nibble_of(c: u8) -> int {
    if 0x30 <= c <= 0x39 {
        c - 0x30
    } else {
        c - 0x61 + 10
    }
}

/// The number that the first `n` digits of a text stand for.
pub open spec fn number_of(text: Seq<u8>, n: int) -> int
    decreases n,
{
    if n <= 0 {
        0
    } else {
        16 * number_of(text, n - 1) + nibble_of(text[n - 1])
    }
}

proof fn lemma_weight(n: int)
    requires
        0 <= n,
    ensures
        weight(n) >= 1,
    decreases n,
{
    if n > 0 {
        lemma_weight(n - 1);
    }
}

proof fn lemma_digits(v: u64, n: int)
    requires
        0 <= n <= 16,
    ensures
        number_of(hex_text(v).skip(2), n) == v as int / weight(16 - n),
    decreases n,
{
    let text = hex_text(v).skip(2);
    if n > 0 {
        lemma_digits(v, n - 1);
        lemma_weight(16 - n);
        let w = weight(16 - n);
        assert(weight(17 - n) == 16 * w);
        let q = v as int / w;
        assert(text[n - 1] == digit(q % 16));
        assert(nibble_of(digit(q % 16)) == q % 16);
        assert(v as int / (w * 16) == q / 16) by {
            vstd::arithmetic::div_mod::lemma_div_denominator(v as int, w, 16);
        }
        assert(16 * w == w * 16);
        assert(number_of(text, n - 1) == q / 16);
        assert(number_of(text, n) == 16 * number_of(text, n - 1) + nibble_of(text[n - 1]));
        assert(16 * (q / 16) + q % 16 == q);
    } else {
        assert(weight(16) == 0x1_0000_0000_0000_0000) by {
            reveal_with_fuel(weight, 18);
        }
        assert(v as int / 0x1_0000_0000_0000_0000 == 0);
    }
}

/// A number goes out as 0x and sixteen digits that stand for it.
pub proof fn law_number_is_written_out(v: u64)
    ensures
        hex_text(v).len() == 18,
        hex_text(v)[0] == 0x30,
        hex_text(v)[1] == 0x78,
        number_of(hex_text(v).skip(2), 16) == v,
{
    lemma_digits(v, 16);
    assert(weight(0) == 1);
}

/// Line feeds among the first `n` bytes.
pub open spec fn feeds(s: Seq<u8>, n: int) -> int
    decreases n,
{
    if n <= 0 {
        0
    } else {
        feeds(s, n - 1) + if s[n - 1] == 0x0a {
            1int
        } else {
            0
        }
    }
}

/// Every byte of a text goes out in its order, each line feed right behind a carriage return, and
/// nothing else goes out.
pub proof fn law_lines_end_with_both(s: Seq<u8>, n: int, i: int)
    requires
        0 <= i < n <= s.len(),
    ensures
        with_returns(s, n).len() == n + feeds(s, n),
        0 <= feeds(s, i) <= feeds(s, i + 1) <= feeds(s, n),
        with_returns(s, n)[i + feeds(s, i + 1)] == s[i],
        s[i] == 0x0a ==> with_returns(s, n)[i + feeds(s, i)] == 0x0d,
    decreases n,
{
    lemma_length(s, n - 1);
    lemma_feeds(s, i);
    if i < n - 1 {
        law_lines_end_with_both(s, n - 1, i);
    }
}

proof fn lemma_length(s: Seq<u8>, n: int)
    requires
        0 <= n <= s.len(),
    ensures
        with_returns(s, n).len() == n + feeds(s, n),
        feeds(s, n) >= 0,
    decreases n,
{
    if n > 0 {
        lemma_length(s, n - 1);
    }
}

proof fn lemma_feeds(s: Seq<u8>, n: int)
    requires
        0 <= n,
    ensures
        feeds(s, n) >= 0,
    decreases n,
{
    if n > 0 {
        lemma_feeds(s, n - 1);
    }
}

/// Entries of free memory among the first `k`.
pub open spec fn free_before(entries: Seq<MemoryEntry>, k: int) -> int
    decreases k,
{
    if k <= 0 {
        0
    } else {
        free_before(entries, k - 1) + if entries[k - 1].kind == CONVENTIONAL_MEMORY {
            1int
        } else {
            0
        }
    }
}

/// The free memory that firmware lists is kept in its order, as many ranges as there is room for,
/// each where it begins and with as many pages as it has.
pub proof fn law_free_memory_is_kept(bi: BootInfo, entries: Seq<MemoryEntry>, k: int)
    requires
        0 <= k <= entries.len(),
    ensures
        ({
            let listed = bi.listing(entries, k);
            &&& listed.range_count == if free_before(entries, k) < 64 {
                free_before(entries, k)
            } else {
                64
            }
            &&& 0 <= free_before(entries, k)
            &&& forall|i: int|
                0 <= i < k && (#[trigger] entries[i]).kind == CONVENTIONAL_MEMORY && free_before(
                    entries,
                    i,
                ) < 64 ==> {
                    let range = listed.ranges@[free_before(entries, i)];
                    &&& 0 <= free_before(entries, i) < listed.range_count
                    &&& range.base == entries[i].phys_start
                    &&& range.pages == entries[i].page_count
                }
        }),
    decreases k,
{
    if k > 0 {
        law_free_memory_is_kept(bi, entries, k - 1);
        let before = bi.listing(entries, k - 1);
        let listed = bi.listing(entries, k);
        assert forall|i: int|
            0 <= i < k && (#[trigger] entries[i]).kind == CONVENTIONAL_MEMORY && free_before(
                entries,
                i,
            ) < 64 implies {
            let range = listed.ranges@[free_before(entries, i)];
            &&& 0 <= free_before(entries, i) < listed.range_count
            &&& range.base == entries[i].phys_start
            &&& range.pages == entries[i].page_count
        } by {
            if i < k - 1 {
                let range = before.ranges@[free_before(entries, i)];
                assert(range.base == entries[i].phys_start);
            }
        }
    }
}

/// The pages of all free memory are counted, up to the largest number.
pub proof fn law_free_pages_are_counted(entries: Seq<MemoryEntry>, k: int, i: int)
    requires
        0 <= i < k <= entries.len(),
        entries[i].kind == CONVENTIONAL_MEMORY,
    ensures
        entries[i].page_count <= free_pages(entries, k) <= u64::MAX,
        free_pages(entries, i) <= free_pages(entries, k),
        free_pages(entries, k) < u64::MAX ==> free_pages(entries, i + 1) == free_pages(entries, i)
            + entries[i].page_count,
    decreases k,
{
    lemma_counted(entries, k - 1);
    lemma_counted(entries, i);
    if i < k - 1 {
        law_free_pages_are_counted(entries, k - 1, i);
    }
}

proof fn lemma_counted(entries: Seq<MemoryEntry>, k: int)
    requires
        0 <= k <= entries.len(),
    ensures
        0 <= free_pages(entries, k) <= u64::MAX,
    decreases k,
{
    if k > 0 {
        lemma_counted(entries, k - 1);
    }
}

} // verus!
