//! The debug console: a PL011 whose address the device tree gives. The functions here say which
//! bytes go out; whoever owns the device sends them.
use vstd::prelude::*;

verus! {

/// Offset of the data register.
pub const PL011_DR: usize = 0;

/// Offset of the flag register.
pub const PL011_FR: usize = 0x18;

/// How often the transmitter is asked whether it has room, before a byte is sent regardless.
pub const SPIN_LIMIT: u32 = 100_000;

/// Where the console's registers are; zero before they are known.
#[derive(Clone, Copy, Debug, PartialEq, Eq, Structural)]
pub struct Uart {
    pub base: u64,
}

pub fn init(uart: &mut Uart, base: u64)
    ensures
        final(uart).base == base,
{
    uart.base = base;
}

pub fn is_ready(uart: &Uart) -> (r: bool)
    ensures
        r == (uart.base != 0),
{
    uart.base != 0
}

pub fn base(uart: &Uart) -> (r: u64)
    ensures
        r == uart.base,
{
    uart.base
}

/// Whether the flag register says that the transmitter is full: bit 5.
pub fn is_full(flags: u32) -> (r: bool)
    ensures
        r == ((flags / 32) % 2 == 1),
{
    (flags / 32) % 2 == 1
}

/// The text with a carriage return before every line feed.
pub open spec fn with_returns(s: Seq<u8>, n: int) -> Seq<u8>
    decreases n,
{
    if n <= 0 {
        seq![]
    } else {
        let before = with_returns(s, n - 1);
        if s[n - 1] == 0x0a {
            before.push(0x0d).push(0x0a)
        } else {
            before.push(s[n - 1])
        }
    }
}

/// The bytes that go out for a text.
pub fn puts(s: &[u8]) -> (r: Vec<u8>)
    ensures
        r@ == with_returns(s@, s@.len() as int),
{
    let mut out: Vec<u8> = Vec::new();
    let mut i: usize = 0;
    while i < s.len()
        invariant
            i <= s@.len(),
            out@ == with_returns(s@, i as int),
        decreases s@.len() - i,
    {
        if s[i] == 0x0a {
            out.push(0x0d);
        }
        out.push(s[i]);
        i = i + 1;
    }
    out
}

/// 16 to the power `n`.
pub open spec fn weight(n: int) -> int
    decreases n,
{
    if n <= 0 {
        1
    } else {
        16 * weight(n - 1)
    }
}

/// A hexadecimal digit, in lower case.
pub open spec fn digit(nibble: int) -> u8 {
    if nibble < 10 {
        (0x30 + nibble) as u8
    } else {
        (0x61 + nibble - 10) as u8
    }
}

/// The number with all its sixteen digits, the highest first.
pub open spec fn hex_text(v: u64) -> Seq<u8> {
    seq![0x30u8, 0x78u8] + Seq::new(16, |i: int| digit((v as int / weight(15 - i)) % 16))
}

/// The bytes that go out for a number.
pub fn hex(v: u64) -> (r: Vec<u8>)
    ensures
        r@ == hex_text(v),
{
    let mut out: Vec<u8> = Vec::new();
    out.push(0x30);
    out.push(0x78);
    let mut place: u64 = 0x1000_0000_0000_0000;
    let mut i: usize = 0;
    proof {
        reveal_with_fuel(weight, 17);
    }
    while i < 16
        invariant
            i <= 16,
            out@ == hex_text(v).take(2 + i),
            i < 16 ==> place == weight(15 - i),
            weight(0) == 1,
            i < 16 ==> place > 0,
        decreases 16 - i,
    {
        let nibble: u8 = ((v / place) % 16) as u8;
        let ch: u8 = if nibble < 10 {
            0x30 + nibble
        } else {
            0x61 + (nibble - 10)
        };
        out.push(ch);
        assert(hex_text(v)[2 + i] == ch);
        assert(out@ =~= hex_text(v).take(3 + i));
        if i < 15 {
            assert(weight(15 - i) == 16 * weight(14 - i));
            place = place / 16;
        }
        i = i + 1;
    }
    assert(out@ =~= hex_text(v));
    out
}

} // verus!
