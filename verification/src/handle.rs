//! Object handles: a table slot and the generation that the slot had.
//!
//! A handle is `generation << 32 | slot + 1`. Slots are reused; the generation moves
//! on each time, so a handle that was kept too long no longer names anything.
use vstd::prelude::*;

verus! {

pub const MAX_GENERATION: u32 = 0x7fff_ffff;

/// The generation after `generation`: it counts up to the largest and restarts at 1.
pub open spec fn generation_after(generation: u32) -> u32 {
    if generation >= MAX_GENERATION {
        1
    } else {
        (generation + 1) as u32
    }
}

/// A generation that a table entry may carry.
pub open spec fn generation_ok(generation: u32) -> bool {
    1 <= generation <= MAX_GENERATION
}

pub fn next_generation(generation: u32) -> (r: u32)
    ensures
        r == generation_after(generation),
{
    if generation >= MAX_GENERATION {
        1
    } else {
        generation + 1
    }
}

/// The number that names `slot` in `generation`.
pub open spec fn handle_of(slot: int, generation: u32) -> int {
    generation * 0x1_0000_0000 + slot + 1
}

/// The slot and generation that `handle` names in a table of `capacity` slots.
pub open spec fn decoded(handle: u64, capacity: int) -> Option<(int, u32)> {
    let raw = handle as int % 0x1_0000_0000;
    let generation = handle as int / 0x1_0000_0000;
    if raw == 0 || raw > capacity || generation == 0 {
        None
    } else {
        Some((raw - 1, generation as u32))
    }
}

/// The slot that `handle` names.
pub open spec fn slot_of(handle: u64) -> int {
    handle as int % 0x1_0000_0000 - 1
}

pub fn make_handle(slot: usize, generation: u32) -> (r: u64)
    requires
        slot < 0xffff_ffff,
    ensures
        r == handle_of(slot as int, generation),
{
    let low: u64 = slot as u64 + 1;
    let high: u64 = generation as u64;
    assert((high << 32) | low == high * 0x1_0000_0000 + low) by (bit_vector)
        requires
            high <= 0xffff_ffffu64,
            low <= 0xffff_ffffu64,
    ;
    (high << 32) | low
}

pub fn decode_handle(handle: u64, capacity: usize) -> (r: Option<(usize, u32)>)
    requires
        capacity < 0xffff_ffff,
    ensures
        match r {
            Some(found) => found.0 < capacity && decoded(handle, capacity as int) == Some(
                (found.0 as int, found.1),
            ),
            None => decoded(handle, capacity as int) is None,
        },
{
    let raw_slot: u32 = handle as u32;
    let generation: u32 = (handle >> 32) as u32;
    assert(handle as u32 == handle % 0x1_0000_0000 && (handle >> 32) as u32 == handle
        / 0x1_0000_0000) by (bit_vector);
    if raw_slot == 0 || raw_slot as usize > capacity || generation == 0 {
        return None;
    }
    Some((raw_slot as usize - 1, generation))
}

/// Decoding gives back the slot and the generation that a handle was made of.
pub proof fn law_handle_round_trip(slot: int, generation: u32, capacity: int)
    requires
        0 <= slot < capacity < 0xffff_ffff,
        generation != 0,
    ensures
        0 < handle_of(slot, generation) <= u64::MAX,
        decoded(handle_of(slot, generation) as u64, capacity) == Some((slot, generation)),
{
    let h = handle_of(slot, generation);
    assert(h / 0x1_0000_0000 == generation && h % 0x1_0000_0000 == slot + 1) by (nonlinear_arith)
        requires
            h == generation * 0x1_0000_0000 + slot + 1,
            0 <= slot < 0xffff_ffff,
            0 <= generation,
    ;
}

/// Two handles are equal only when they name the same slot in the same generation.
pub proof fn law_handle_injective(a: int, ga: u32, b: int, gb: u32)
    requires
        0 <= a < 0xffff_ffff,
        0 <= b < 0xffff_ffff,
        handle_of(a, ga) == handle_of(b, gb),
    ensures
        a == b,
        ga == gb,
{
}

/// A handle is never mistaken for an error code, nor for zero.
pub proof fn law_handle_is_no_error(slot: int, generation: u32)
    requires
        0 <= slot < 0xffff_ffff,
        generation_ok(generation),
    ensures
        0 < handle_of(slot, generation) < 0x8000_0000_0000_0000,
        !crate::abi::sys_error(handle_of(slot, generation) as u64),
{
}

/// Moving on to the next generation always changes it and keeps it in range.
pub proof fn law_generation_moves(generation: u32)
    requires
        generation_ok(generation),
    ensures
        generation_after(generation) != generation,
        generation_ok(generation_after(generation)),
{
}

/// A table slot: whether it is in use, and its generation.
#[verifier::ext_equal]
pub struct SlotUse {
    pub used: bool,
    pub generation: u32,
}

/// A slot is taken, left alone or emptied under its generation, or it is given up and moves on to
/// the next one.
pub open spec fn slot_step(a: SlotUse, b: SlotUse) -> bool {
    ||| b.generation == a.generation
    ||| a.used && !b.used && b.generation == generation_after(a.generation)
}

/// How often the slot was taken in the first `n` steps.
pub open spec fn times_taken(history: Seq<SlotUse>, n: int) -> int
    decreases n,
{
    if n <= 0 {
        0
    } else {
        times_taken(history, n - 1) + if !history[n - 1].used && history[n].used {
            1int
        } else {
            0
        }
    }
}

/// How often the slot moved on in the first `n` steps.
spec fn times_moved(history: Seq<SlotUse>, n: int) -> int
    decreases n,
{
    if n <= 0 {
        0
    } else {
        times_moved(history, n - 1) + if history[n].generation != history[n - 1].generation {
            1int
        } else {
            0
        }
    }
}

/// The generation that is `moves` moves behind `from`, going round at most once.
spec fn moved_on(from: u32, moves: int) -> int {
    if from + moves <= MAX_GENERATION {
        from + moves
    } else {
        from + moves - MAX_GENERATION
    }
}

proof fn lemma_moved_on(from: u32, history: Seq<SlotUse>, n: int)
    requires
        generation_ok(from),
        0 <= n < history.len(),
        !history[0].used,
        history[0].generation == generation_after(from),
        forall|i: int|
            0 <= i < history.len() - 1 ==> slot_step(history[i], #[trigger] history[i + 1]),
        times_taken(history, n) < MAX_GENERATION,
    ensures
        0 <= times_moved(history, n),
        times_moved(history, n) + (if history[n].used {
            1int
        } else {
            0
        }) <= times_taken(history, n),
        history[n].generation == moved_on(from, times_moved(history, n) + 1),
    decreases n,
{
    if n > 0 {
        lemma_moved_on(from, history, n - 1);
        assert(slot_step(history[n - 1], history[n - 1 + 1]));
    }
}

/// The handle of a slot that was given up names nothing any more, however often the slot is taken
/// again, as long as that is less often than there are generations.
pub proof fn law_handle_stays_stale(from: u32, history: Seq<SlotUse>, n: int)
    requires
        generation_ok(from),
        0 <= n < history.len(),
        !history[0].used,
        history[0].generation == generation_after(from),
        forall|i: int|
            0 <= i < history.len() - 1 ==> slot_step(history[i], #[trigger] history[i + 1]),
        times_taken(history, n) < MAX_GENERATION,
    ensures
        !(history[n].used && history[n].generation == from),
{
    lemma_moved_on(from, history, n);
}

} // verus!
