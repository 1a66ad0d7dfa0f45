//! What the register writes of the interrupt controller mean for the interrupt lines.
use crate::hw::HwOp;
use crate::interrupt::gic::Gic;
use vstd::prelude::*;

verus! {

/// What the distributor holds: which lines are enabled, which are pending, and the words of its
/// other registers by their offsets.
pub struct Distributor {
    pub enabled: spec_fn(int) -> bool,
    pub pending: spec_fn(int) -> bool,
    pub word: spec_fn(int) -> u32,
}

/// Bit `i` of a word.
pub open spec fn bit(word: u32, i: int) -> bool {
    word & (1u32 << (i as u32)) != 0
}

/// Line `line` has the bit that is set, of the registers with one bit for each line that begin at
/// `array`, in a word that is written to `offset`.
pub open spec fn picks(array: int, offset: u64, value: u32, line: int) -> bool {
    offset == array + 4 * (line / 32) && bit(value, line % 32)
}

impl Distributor {
    /// What one operation leaves. Writing ones enables lines at 0x100, disables them at 0x180, and
    /// clears what is pending at 0x280; zeros do nothing there. Other registers hold what is
    /// written.
    pub open spec fn after(self, op: HwOp) -> Distributor {
        match op {
            HwOp::DistWrite { offset, value } => if 0x100 <= offset < 0x180 {
                Distributor {
                    enabled: |line: int| (self.enabled)(line) || picks(0x100, offset, value, line),
                    ..self
                }
            } else if 0x180 <= offset < 0x200 {
                Distributor {
                    enabled: |line: int| (self.enabled)(line) && !picks(0x180, offset, value, line),
                    ..self
                }
            } else if 0x280 <= offset < 0x300 {
                Distributor {
                    pending: |line: int| (self.pending)(line) && !picks(0x280, offset, value, line),
                    ..self
                }
            } else {
                Distributor {
                    word: |at: int| if at == offset {
                        value
                    } else {
                        (self.word)(at)
                    },
                    ..self
                }
            },
            HwOp::DistModify { offset, clear, set } => Distributor {
                word: |at: int| if at == offset {
                    ((self.word)(at) & !clear) | set
                } else {
                    (self.word)(at)
                },
                ..self
            },
            _ => self,
        }
    }

    pub open spec fn after_all(self, ops: Seq<HwOp>) -> Distributor
        decreases ops.len(),
    {
        if ops.len() == 0 {
            self
        } else {
            self.after_all(ops.drop_last()).after(ops.last())
        }
    }

    /// The priority of a line: one byte for each from 0x400 on.
    pub open spec fn priority(self, line: int) -> u32 {
        ((self.word)(0x400 + 4 * (line / 4)) >> (8 * (line % 4)) as u32) & 0xff
    }

    /// The processors that a line goes to, as bits: one byte for each line from 0x800 on.
    pub open spec fn targets(self, line: int) -> u32 {
        ((self.word)(0x800 + 4 * (line / 4)) >> (8 * (line % 4)) as u32) & 0xff
    }

    /// How a line is triggered: two bits for each from 0xc00 on, 2 for an edge and 0 for a level.
    pub open spec fn trigger(self, line: int) -> u32 {
        ((self.word)(0xc00 + 4 * (line / 16)) >> (2 * (line % 16)) as u32) & 3
    }
}

proof fn lemma_bit(a: u32, b: u32)
    requires
        a < 32,
        b < 32,
    ensures
        bit(1u32 << a, b as int) == (a == b),
{
    assert(((1u32 << a) & (1u32 << b) != 0) == (a == b)) by (bit_vector)
        requires
            a < 32,
            b < 32,
    ;
}

proof fn lemma_byte(word: u32, value: u32, a: u32, b: u32)
    requires
        a < 4,
        b < 4,
        value <= 0xff,
    ensures
        ((((word & !(0xffu32 << (8 * a) as u32)) | (value << (8 * a) as u32)) >> (8 * b) as u32)
            & 0xff) == if a == b {
            value
        } else {
            (word >> (8 * b) as u32) & 0xff
        },
{
    let s = (8 * a) as u32;
    let t = (8 * b) as u32;
    assert((((word & !(0xffu32 << s)) | (value << s)) >> t) & 0xff == if s == t {
        value
    } else {
        (word >> t) & 0xff
    }) by (bit_vector)
        requires
            s == 0 || s == 8 || s == 16 || s == 24,
            t == 0 || t == 8 || t == 16 || t == 24,
            value <= 0xff,
    ;
}

proof fn lemma_pair(word: u32, value: u32, a: u32, b: u32)
    requires
        a < 16,
        b < 16,
        value <= 3,
    ensures
        ((((word & !(3u32 << (2 * a) as u32)) | (value << (2 * a) as u32)) >> (2 * b) as u32) & 3)
            == if a == b {
            value
        } else {
            (word >> (2 * b) as u32) & 3
        },
{
    let s = (2 * a) as u32;
    let t = (2 * b) as u32;
    assert((((word & !(3u32 << s)) | (value << s)) >> t) & 3 == if s == t {
        value
    } else {
        (word >> t) & 3
    }) by (bit_vector)
        requires
            s <= 30 && s % 2 == 0,
            t <= 30 && t % 2 == 0,
            value <= 3,
    ;
}

/// A line that is picked by its own bit is the only one.
proof fn lemma_picks(array: int, intid: u32, line: int)
    requires
        0 <= line < 1024,
        intid < 1024,
        array % 4 == 0,
        0 <= array <= 0x1000,
    ensures
        picks(array, (array + 4 * (intid / 32)) as u64, 1u32 << (intid % 32), line) == (line
            == intid),
{
    lemma_bit(intid % 32, (line % 32) as u32);
}

/// Enabling a shared interrupt enables its line and changes no other; so does disabling.
pub proof fn law_enabling_reaches_one_line(gic: Gic, d: Distributor, intid: u32, line: int)
    requires
        gic.is_ready(),
        32 <= intid < 1020,
        0 <= line < 1024,
    ensures
        (d.after_all(gic.enable_ops(intid)).enabled)(line) == (line == intid || (d.enabled)(line)),
        (d.after_all(gic.disable_ops(intid)).enabled)(line) == (line != intid && (d.enabled)(line)),
        d.after_all(gic.enable_ops(intid)).word == d.word,
        d.after_all(gic.disable_ops(intid)).word == d.word,
        d.after_all(gic.enable_ops(intid)).pending == d.pending,
        d.after_all(gic.disable_ops(intid)).pending == d.pending,
{
    lemma_picks(0x100, intid, line);
    lemma_picks(0x180, intid, line);
    let on = gic.enable_ops(intid);
    let off = gic.disable_ops(intid);
    assert(on.drop_last().drop_last() =~= Seq::<HwOp>::empty());
    assert(off.drop_last().drop_last() =~= Seq::<HwOp>::empty());
    reveal_with_fuel(Distributor::after_all, 3);
}

/// Configuring a shared interrupt leaves its line disabled, nothing of it pending, with the middle
/// priority, triggered as asked, and going to the one processor that was asked for. Every other
/// line is as it was.
#[verifier::spinoff_prover]
pub proof fn law_configured_line_is_as_asked(
    gic: Gic,
    d: Distributor,
    intid: u32,
    level: bool,
    cpu: usize,
    line: int,
)
    requires
        gic.is_ready(),
        32 <= intid < 1020,
        cpu < 4,
        0 <= line < 1024,
    ensures
        ({
            let e = d.after_all(gic.configure_ops(intid, level, cpu));
            &&& (e.enabled)(line) == (line != intid && (d.enabled)(line))
            &&& (e.pending)(line) == (line != intid && (d.pending)(line))
            &&& line == intid ==> {
                &&& e.priority(line) == 0x80
                &&& e.targets(line) == 1u32 << (cpu as u32)
                &&& e.trigger(line) == if level {
                    0u32
                } else {
                    2
                }
            }
            &&& line != intid ==> {
                &&& e.priority(line) == d.priority(line)
                &&& e.targets(line) == d.targets(line)
                &&& e.trigger(line) == d.trigger(line)
            }
        }),
{
    lemma_picks(0x180, intid, line);
    lemma_picks(0x280, intid, line);
    let ops = gic.configure_ops(intid, level, cpu);
    let off = gic.disable_ops(intid);
    assert(ops.len() == 7);
    let o1 = ops.drop_last();
    let o2 = o1.drop_last();
    let o3 = o2.drop_last();
    let o4 = o3.drop_last();
    let o5 = o4.drop_last();
    assert(o5 =~= off);
    assert(off.drop_last().drop_last() =~= Seq::<HwOp>::empty());
    reveal_with_fuel(Distributor::after_all, 8);
    assert(1u32 << cpu == 1u32 << (cpu as u32));
    let mask = 1u32 << (cpu as u32);
    assert(mask <= 0xff) by (bit_vector)
        requires
            mask == 1u32 << (cpu as u32),
            cpu < 4,
    ;
    let a = (intid % 4) as u32;
    let b = (line % 4) as u32;
    lemma_byte((d.word)(0x400 + 4 * (line / 4)), 0x80, a, b);
    lemma_byte((d.word)(0x800 + 4 * (line / 4)), mask, a, b);
    let set: u32 = if level {
        0
    } else {
        2
    };
    lemma_pair(
        (d.word)(0xc00 + 4 * (line / 16)),
        set,
        (intid % 16) as u32,
        (line % 16) as u32,
    );
}

/// A software interrupt asks for exactly its number at exactly the processors in the mask; the one
/// to all others asks by the filter that stands for them.
pub proof fn law_software_interrupt_names_its_targets(gic: Gic, intid: u32, mask: u8)
    requires
        gic.is_ready(),
        intid <= 15,
        mask != 0,
    ensures
        ({
            let some = gic.sgi_ops(intid, mask);
            let others = gic.sgi_others_ops(intid);
            &&& exists|value: u32|
                #![trigger some.contains(HwOp::DistWrite { offset: 0xf00, value })]
                {
                    &&& some.contains(HwOp::DistWrite { offset: 0xf00, value })
                    &&& value & 0xf == intid
                    &&& (value >> 16) & 0xff == mask
                    &&& (value >> 24) & 3 == 0
                }
            &&& exists|value: u32|
                #![trigger others.contains(HwOp::DistWrite { offset: 0xf00, value })]
                {
                    &&& others.contains(HwOp::DistWrite { offset: 0xf00, value })
                    &&& value & 0xf == intid
                    &&& (value >> 24) & 3 == 1
                }
        }),
{
    let one = (mask as u32) << 16 | (intid & 0xf);
    let all = 0x100_0000u32 | (intid & 0xf);
    assert(one & 0xf == intid && (one >> 16) & 0xff == mask && (one >> 24) & 3 == 0 && all & 0xf
        == intid && (all >> 24) & 3 == 1) by (bit_vector)
        requires
            intid <= 15,
            one == (mask as u32) << 16 | (intid & 0xf),
            all == 0x100_0000u32 | (intid & 0xf),
    ;
    let some = gic.sgi_ops(intid, mask);
    let others = gic.sgi_others_ops(intid);
    assert(some[1] == (HwOp::DistWrite { offset: 0xf00, value: one }));
    assert(some.contains(HwOp::DistWrite { offset: 0xf00, value: one }));
    assert(others[1] == (HwOp::DistWrite { offset: 0xf00, value: all }));
    assert(others.contains(HwOp::DistWrite { offset: 0xf00, value: all }));
}


/// Operations one after the other leave what the second leaves of what the first left.
pub proof fn lemma_after_both(d: Distributor, a: Seq<HwOp>, b: Seq<HwOp>)
    ensures
        d.after_all(a + b) == d.after_all(a).after_all(b),
    decreases b.len(),
{
    if b.len() == 0 {
        assert(a + b =~= a);
    } else {
        assert((a + b).drop_last() =~= a + b.drop_last());
        lemma_after_both(d, a, b.drop_last());
    }
}


/// The bit of a processor is not zero.
pub(crate) proof fn lemma_mask(cpu: u8)
    requires
        cpu < 4,
    ensures
        1u8 << (cpu as usize) != 0,
{
    assert(1u8 << (cpu as usize) != 0) by (bit_vector)
        requires
            cpu < 4,
    ;
}


pub(crate) proof fn lemma_one(d: Distributor, op: HwOp)
    ensures
        d.after_all(seq![op]) == d.after(op),
{
    assert(seq![op].drop_last() =~= Seq::<HwOp>::empty());
    reveal_with_fuel(Distributor::after_all, 2);
}

/// Configuring and enabling a private line reaches that line alone.
#[verifier::spinoff_prover]
pub(crate) proof fn lemma_private_line(
    gic: Gic,
    d: Distributor,
    intid: u32,
    priority: u8,
    line: int,
)
    requires
        gic.is_ready(),
        16 <= intid < 32,
        0 <= line < 1024,
    ensures
        ({
            let a = d.after_all(gic.configure_private_ops(intid, priority));
            let e = a.after_all(gic.private_bit_ops(0x100, intid));
            &&& (e.enabled)(line) == (line == intid || (d.enabled)(line))
            &&& (e.pending)(line) == (line != intid && (d.pending)(line))
            &&& e.priority(line) == if line == intid {
                priority as u32
            } else {
                d.priority(line)
            }
        }),
{
    lemma_picks(0x100, intid, line);
    lemma_picks(0x180, intid, line);
    lemma_picks(0x280, intid, line);
    let ops = gic.configure_private_ops(intid, priority);
    let off = gic.private_bit_ops(0x180, intid);
    let on = gic.private_bit_ops(0x100, intid);
    assert(ops.len() == 6);
    let o1 = ops.drop_last();
    let o2 = o1.drop_last();
    let o3 = o2.drop_last();
    let o4 = o3.drop_last();
    assert(o4 =~= off);
    assert(off.drop_last().drop_last() =~= Seq::<HwOp>::empty());
    assert(on.drop_last().drop_last() =~= Seq::<HwOp>::empty());
    reveal_with_fuel(Distributor::after_all, 7);
    lemma_byte(
        (d.word)(0x400 + 4 * (line / 4)),
        priority as u32,
        (intid % 4) as u32,
        (line % 4) as u32,
    );
}

} // verus!
