//! Small shared pieces: array update in specifications, powers of two, rounding.
use vstd::prelude::*;

verus! {

/// `a.upd(i, v)` is the array `a` with `v` at place `i`.
pub trait ArrayUpdate<T>: Sized {
    spec fn upd(self, i: int, v: T) -> Self;
}

impl<T, const N: usize> ArrayUpdate<T> for [T; N] {
    open spec fn upd(self, i: int, v: T) -> [T; N] {
        vstd::array::spec_array_update(self, i, v)
    }
}

/// The array with `v` in every place.
pub open spec fn filled<T: Copy, const N: usize>(v: T) -> [T; N] {
    vstd::array::spec_array_fill_for_copy_type(v)
}

/// The array with `f` applied in the first `k` places.
pub open spec fn mapped<T, const N: usize>(a: [T; N], f: spec_fn(T) -> T, k: int) -> [T; N]
    decreases k,
{
    if k <= 0 {
        a
    } else {
        mapped(a, f, k - 1).upd(k - 1, f(a@[k - 1]))
    }
}

/// The array with the first `k` places taken from a sequence.
pub open spec fn with_prefix<T, const N: usize>(a: [T; N], s: Seq<T>, k: int) -> [T; N]
    decreases k,
{
    if k <= 0 {
        a
    } else {
        with_prefix(a, s, k - 1).upd(k - 1, s[k - 1])
    }
}

/// What such an array holds.
pub proof fn lemma_with_prefix<T, const N: usize>(a: [T; N], s: Seq<T>, k: int)
    requires
        0 <= k <= N,
    ensures
        forall|i: int|
            0 <= i < N ==> #[trigger] with_prefix(a, s, k)@[i] == if i < k {
                s[i]
            } else {
                a@[i]
            },
    decreases k,
{
    if k > 0 {
        lemma_with_prefix(a, s, k - 1);
        let before = with_prefix(a, s, k - 1);
        assert(with_prefix(a, s, k)@ == before@.update(k - 1, s[k - 1]));
        assert forall|i: int| 0 <= i < N implies #[trigger] with_prefix(a, s, k)@[i] == if i < k {
            s[i]
        } else {
            a@[i]
        } by {
            assert(before@[i] == before@[i]);
        }
    }
}

pub proof fn lemma_mapped<T, const N: usize>(a: [T; N], f: spec_fn(T) -> T, k: int)
    requires
        0 <= k <= N,
    ensures
        forall|i: int|
            0 <= i < N ==> #[trigger] mapped(a, f, k)@[i] == if i < k {
                f(a@[i])
            } else {
                a@[i]
            },
    decreases k,
{
    if k > 0 {
        lemma_mapped(a, f, k - 1);
        let before = mapped(a, f, k - 1);
        assert(mapped(a, f, k)@ == before@.update(k - 1, f(a@[k - 1])));
        assert forall|i: int| 0 <= i < N implies #[trigger] mapped(a, f, k)@[i] == if i < k {
            f(a@[i])
        } else {
            a@[i]
        } by {
            assert(before@[i] == mapped(a, f, k - 1)@[i]);
        }
    }
}

/// The array whose places 1 .. k moved down by one.
pub open spec fn shifted<T, const N: usize>(a: [T; N], k: int) -> [T; N]
    decreases k,
{
    if k <= 1 {
        a
    } else {
        shifted(a, k - 1).upd(k - 2, a@[k - 1])
    }
}

pub proof fn lemma_shifted<T, const N: usize>(a: [T; N], k: int)
    requires
        0 <= k <= N,
    ensures
        forall|i: int|
            0 <= i < N ==> #[trigger] shifted(a, k)@[i] == if i < k - 1 {
                a@[i + 1]
            } else {
                a@[i]
            },
    decreases k,
{
    if k > 1 {
        lemma_shifted(a, k - 1);
        let before = shifted(a, k - 1);
        assert(shifted(a, k)@ == before@.update(k - 2, a@[k - 1]));
        assert forall|i: int| 0 <= i < N implies #[trigger] shifted(a, k)@[i] == if i < k - 1 {
            a@[i + 1]
        } else {
            a@[i]
        } by {
            assert(before@[i] == shifted(a, k - 1)@[i]);
        }
    }
}

/// `x` is 1, 2, 4, 8, ..
pub open spec fn power_of_two(x: int) -> bool {
    exists|k: nat| k < 64 && x == #[trigger] vstd::arithmetic::power2::pow2(k)
}

/// The multiple of `unit` at or next above `x`.
pub open spec fn round_up(x: int, unit: int) -> int {
    ((x + unit - 1) / unit) * unit
}

pub fn is_power_of_two(x: u64) -> (r: bool)
    ensures
        r == power_of_two(x as int),
{
    let mut p: u64 = 1;
    let mut k: u32 = 0;
    proof {
        vstd::arithmetic::power2::lemma2_to64();
    }
    while k < 63
        invariant_except_break
            k <= 63,
            p == vstd::arithmetic::power2::pow2(k as nat),
            forall|j: nat| j < k ==> x != #[trigger] vstd::arithmetic::power2::pow2(j),
        ensures
            k <= 63,
            p == vstd::arithmetic::power2::pow2(k as nat),
            forall|j: nat| j < k ==> x != #[trigger] vstd::arithmetic::power2::pow2(j),
            p == x || k == 63,
        decreases 63 - k,
    {
        if p == x {
            break;
        }
        proof {
            lemma_pow2_step(k as nat);
        }
        p = p * 2;
        k = k + 1;
    }
    p == x
}

/// The power of two at or next above `x`.
pub fn next_power_of_two(x: u64) -> (r: u64)
    requires
        x <= 0x8000_0000_0000_0000,
    ensures
        power_of_two(r as int),
        x <= r,
        r == 1 || r < 2 * x,
{
    let mut p: u64 = 1;
    let mut k: u32 = 0;
    proof {
        vstd::arithmetic::power2::lemma2_to64();
        lemma_pow2_step(0);
    }
    while p < x
        invariant
            k <= 63,
            p == vstd::arithmetic::power2::pow2(k as nat),
            p == 1 || p < 2 * x,
            x <= 0x8000_0000_0000_0000,
            vstd::arithmetic::power2::pow2(63) == 0x8000_0000_0000_0000,
        decreases 63 - k,
    {
        proof {
            lemma_pow2_step(k as nat);
            if k == 63 {
                assert(false);
            }
        }
        p = p * 2;
        k = k + 1;
    }
    p
}

proof fn lemma_pow2_step(k: nat)
    requires
        k < 63,
    ensures
        vstd::arithmetic::power2::pow2((k + 1) as nat) == 2 * vstd::arithmetic::power2::pow2(k),
        vstd::arithmetic::power2::pow2(k) <= 0x4000_0000_0000_0000,
        vstd::arithmetic::power2::pow2(63) == 0x8000_0000_0000_0000,
{
    vstd::arithmetic::power2::lemma_pow2_unfold((k + 1) as nat);
    vstd::arithmetic::power2::lemma2_to64();
    vstd::arithmetic::power2::lemma2_to64_rest();
    if k < 62 {
        vstd::arithmetic::power2::lemma_pow2_strictly_increases(k, 62);
    }
}

/// Rounding up reaches a multiple of the unit, less than one unit away.
pub proof fn lemma_round_up(x: int, unit: int)
    requires
        unit > 0,
        x >= 0,
    ensures
        x <= round_up(x, unit) < x + unit,
        round_up(x, unit) % unit == 0,
        x % unit == 0 ==> round_up(x, unit) == x,
        x % unit != 0 ==> round_up(x, unit) == x - x % unit + unit,
{
    let q = (x + unit - 1) / unit;
    vstd::arithmetic::div_mod::lemma_fundamental_div_mod(x + unit - 1, unit);
    vstd::arithmetic::div_mod::lemma_fundamental_div_mod(x, unit);
    vstd::arithmetic::div_mod::lemma_mod_multiples_basic(q, unit);
    vstd::arithmetic::mul::lemma_mul_is_commutative(q, unit);
    let q0 = x / unit;
    let r0 = x % unit;
    assert(0 <= r0 < unit);
    if r0 == 0 {
        vstd::arithmetic::div_mod::lemma_fundamental_div_mod_converse(x + unit - 1, unit, q0, unit - 1);
    } else {
        assert(unit * (q0 + 1) == unit * q0 + unit) by (nonlinear_arith);
        vstd::arithmetic::div_mod::lemma_fundamental_div_mod_converse(x + unit - 1, unit, q0 + 1, r0 - 1);
    }
}

/// A power of two that is at least another one and less than twice as large is that one.
pub proof fn lemma_power_of_two_gap(a: int, b: int)
    requires
        power_of_two(a),
        power_of_two(b),
        a <= b < 2 * a,
    ensures
        a == b,
{
    let j = choose|k: nat| k < 64 && a == #[trigger] vstd::arithmetic::power2::pow2(k);
    let k = choose|k: nat| k < 64 && b == #[trigger] vstd::arithmetic::power2::pow2(k);
    if j < k {
        vstd::arithmetic::power2::lemma_pow2_unfold((j + 1) as nat);
        if j + 1 < k {
            vstd::arithmetic::power2::lemma_pow2_strictly_increases((j + 1) as nat, k);
        }
    } else if k < j {
        vstd::arithmetic::power2::lemma_pow2_strictly_increases(k, j);
    }
}

/// A power of two above 4096 is 4096 times a power of two.
pub proof fn lemma_power_of_two_pages(a: int)
    requires
        power_of_two(a),
        a >= 4096,
    ensures
        power_of_two(a / 4096),
        a % 4096 == 0,
{
    let k = choose|k: nat| k < 64 && a == #[trigger] vstd::arithmetic::power2::pow2(k);
    vstd::arithmetic::power2::lemma2_to64();
    if k < 12 {
        vstd::arithmetic::power2::lemma_pow2_strictly_increases(k, 12);
    }
    let q = vstd::arithmetic::power2::pow2((k - 12) as nat) as int;
    vstd::arithmetic::power2::lemma_pow2_adds((k - 12) as nat, 12);
    assert(a == q * 4096);
    assert(a / 4096 == q && a % 4096 == 0) by (nonlinear_arith)
        requires
            a == q * 4096,
    ;
    assert(((k - 12) as nat) < 64);
}

} // verus!
