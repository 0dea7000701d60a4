//! One band of the program, packed into a word: eight slots of six bits, an
//! instruction's action in the low three bits of its slot and its guard in
//! the high three.

use crate::symbols::IfColor;
use crate::symbols::Instruction;
use crate::symbols::OpCode;
use vstd::prelude::*;

verus! {

impl Instruction {
    /// The six bits that stand for this instruction.
    pub open spec fn encode(self) -> u64 {
        match self {
            Instruction::NoInstruction => 0,
            Instruction::Real(c, o) => (c.tag() * 8 + o.code()) as u64,
        }
    }

    /// The instruction that six bits stand for. Bits without a guard stand
    /// for no instruction, whatever their action.
    pub open spec fn decode(bits: u64) -> Instruction {
        let guard = IfColor::of_tag((bits / 8) % 8);
        if guard == IfColor::Nop {
            Instruction::NoInstruction
        } else {
            Instruction::Real(guard, OpCode::of_code(bits % 8))
        }
    }

    /// An instruction that a band can hold and give back: no instruction, or
    /// one with a guard.
    pub open spec fn encodable(self) -> bool {
        match self {
            Instruction::NoInstruction => true,
            Instruction::Real(c, _) => c != IfColor::Nop,
        }
    }

    /// The six bits of this instruction.
    pub fn to_bits(self) -> (r: u64)
        ensures
            r == self.encode(),
            r < 64,
    {
        match self {
            Instruction::NoInstruction => 0,
            Instruction::Real(c, o) => c.to_tag() * 8 + o.to_code(),
        }
    }

    /// The instruction that six bits stand for.
    pub fn from_bits(bits: u64) -> (r: Instruction)
        ensures
            r == Instruction::decode(bits),
    {
        let guard = IfColor::from_tag((bits / 8) % 8);
        if guard == IfColor::Nop {
            Instruction::NoInstruction
        } else {
            Instruction::Real(guard, OpCode::from_code(bits % 8))
        }
    }
}

/// Decoding what an instruction was encoded to gives the instruction back.
pub proof fn lemma_decode_encode(ins: Instruction)
    requires
        ins.encodable(),
    ensures
        Instruction::decode(ins.encode()) == ins,
        ins.encode() < 64,
{
}

/// The six bits held in slot `i` of a packed band.
pub open spec fn field(w: u64, i: nat) -> u64 {
    (w >> ((6 * i) as u64)) & 63
}

/// The instruction in slot `i` of a packed band. Past the eighth slot there
/// is none.
pub open spec fn instruction_at(w: u64, i: nat) -> Instruction {
    if i < 8 {
        Instruction::decode(field(w, i))
    } else {
        Instruction::NoInstruction
    }
}

/// The part of a word that the eight slots of a band lie in.
pub open spec fn low_bits(w: u64) -> u64 {
    w & 0xffff_ffff_ffff
}

/// The instructions of a band are read from the low 48 bits of its word:
/// what the word holds above them changes none.
pub proof fn lemma_low_bits(w: u64, i: nat)
    ensures
        instruction_at(low_bits(w), i) == instruction_at(w, i),
        low_bits(w) < 0x1_0000_0000_0000,
{
    assert(w & 0xffff_ffff_ffff < 0x1_0000_0000_0000) by (bit_vector);
    if i < 8 {
        let s: u64 = (6 * i) as u64;
        assert(((w & 0xffff_ffff_ffff) >> s) & 63 == (w >> s) & 63) by (bit_vector)
            requires
                s <= 42,
        ;
    }
}

/// The word `w` is the band that holds `instrs` in its first slots and
/// nothing after them.
pub open spec fn packs(w: u64, instrs: Seq<Instruction>) -> bool {
    &&& instrs.len() <= 8
    &&& w < 0x1_0000_0000_0000
    &&& forall|i: nat|
        i < 8 ==> #[trigger] field(w, i) == (if i < instrs.len() {
            instrs[i as int].encode()
        } else {
            0
        })
}

/// Writing one slot leaves the others as they were and keeps the word within
/// its eight slots.
proof fn lemma_write_field(w: u64, c: u64, s: u64, t: u64)
    by (bit_vector)
    requires
        s <= 42,
        t <= 42,
        c <= 63,
        s == t || s + 6 <= t || t + 6 <= s,
    ensures
        (((w & !(63u64 << s)) | (c << s)) >> t) & 63 == (if s == t {
            c
        } else {
            (w >> t) & 63
        }),
        w < 0x1_0000_0000_0000 ==> ((w & !(63u64 << s)) | (c << s)) < 0x1_0000_0000_0000,
{
}

/// A word within eight slots is fixed by what its slots hold.
proof fn lemma_fields_fix_word(a: u64, b: u64)
    requires
        a < 0x1_0000_0000_0000,
        b < 0x1_0000_0000_0000,
        forall|i: nat| i < 8 ==> field(a, i) == field(b, i),
    ensures
        a == b,
{
    assert(field(a, 0) == field(b, 0));
    assert(field(a, 1) == field(b, 1));
    assert(field(a, 2) == field(b, 2));
    assert(field(a, 3) == field(b, 3));
    assert(field(a, 4) == field(b, 4));
    assert(field(a, 5) == field(b, 5));
    assert(field(a, 6) == field(b, 6));
    assert(field(a, 7) == field(b, 7));
    assert(a == b) by (bit_vector)
        requires
            a < 0x1_0000_0000_0000,
            b < 0x1_0000_0000_0000,
            (a >> 0u64) & 63 == (b >> 0u64) & 63,
            (a >> 6u64) & 63 == (b >> 6u64) & 63,
            (a >> 12u64) & 63 == (b >> 12u64) & 63,
            (a >> 18u64) & 63 == (b >> 18u64) & 63,
            (a >> 24u64) & 63 == (b >> 24u64) & 63,
            (a >> 30u64) & 63 == (b >> 30u64) & 63,
            (a >> 36u64) & 63 == (b >> 36u64) & 63,
            (a >> 42u64) & 63 == (b >> 42u64) & 63,
    ;
}

/// One word at most packs a given sequence of instructions.
pub proof fn lemma_packs_one_word(a: u64, b: u64, instrs: Seq<Instruction>)
    requires
        packs(a, instrs),
        packs(b, instrs),
    ensures
        a == b,
{
    assert forall|i: nat| i < 8 implies field(a, i) == field(b, i) by {
        assert(field(a, i) == (if i < instrs.len() {
            instrs[i as int].encode()
        } else {
            0
        }));
        assert(field(b, i) == (if i < instrs.len() {
            instrs[i as int].encode()
        } else {
            0
        }));
    }
    lemma_fields_fix_word(a, b);
}

/// The empty band holds nothing in any slot.
pub proof fn lemma_empty_band()
    ensures
        packs(0, Seq::<Instruction>::empty()),
{
    assert forall|i: nat| i < 8 implies #[trigger] field(0, i) == 0 by {
        let s: u64 = (6 * i) as u64;
        assert(s <= 42 ==> (0u64 >> s) & 63 == 0) by (bit_vector);
    }
}

/// Reads the instruction in slot `i` of a packed band.
pub fn fetch(w: u64, i: u8) -> (r: Instruction)
    ensures
        r == instruction_at(w, i as nat),
{
    if i < 8 {
        let s: u64 = 6 * (i as u64);
        Instruction::from_bits((w >> s) & 63)
    } else {
        Instruction::NoInstruction
    }
}

/// Writes six bits into slot `i` of a packed band.
pub fn set_field(w: u64, i: u8, bits: u64) -> (r: u64)
    requires
        i < 8,
        bits < 64,
    ensures
        forall|j: nat| j < 8 ==> #[trigger] field(r, j) == (if j == i { bits } else { field(w, j) }),
        w < 0x1_0000_0000_0000 ==> r < 0x1_0000_0000_0000,
{
    let s: u64 = 6 * (i as u64);
    let r: u64 = (w & !(63u64 << s)) | (bits << s);
    proof {
        assert forall|j: nat| j < 8 implies #[trigger] field(r, j) == (if j == i {
            bits
        } else {
            field(w, j)
        }) by {
            lemma_write_field(w, bits, s, (6 * j) as u64);
        }
        lemma_write_field(w, bits, s, s);
    }
    r
}

/// Packs a sequence of instructions into a band, the first into slot 0.
/// A band has room for eight.
pub fn encode_band(instrs: &Vec<Instruction>) -> (r: Option<u64>)
    ensures
        r.is_some() <==> instrs@.len() <= 8,
        r.is_some() ==> packs(r.unwrap(), instrs@),
{
    if instrs.len() > 8 {
        return None;
    }
    let mut w: u64 = 0;
    let mut i: u8 = 0;
    proof {
        lemma_empty_band();
    }
    while (i as usize) < instrs.len()
        invariant
            instrs@.len() <= 8,
            i <= instrs@.len(),
            packs(w, instrs@.take(i as int)),
        decreases instrs@.len() - i,
    {
        let bits = instrs[i as usize].to_bits();
        let ghost before = w;
        w = set_field(w, i, bits);
        proof {
            let a = instrs@.take(i as int);
            let b = instrs@.take(i + 1);
            assert forall|j: nat| j < 8 implies #[trigger] field(w, j) == (if j < b.len() {
                b[j as int].encode()
            } else {
                0
            }) by {
                assert(field(before, j) == (if j < a.len() {
                    a[j as int].encode()
                } else {
                    0
                }));
            }
        }
        i = i + 1;
    }
    assert(instrs@.take(i as int) =~= instrs@);
    Some(w)
}

/// What was packed into a band is read back from it, slot by slot, and the
/// slots after it hold no instruction.
pub proof fn lemma_band_round_trip(w: u64, instrs: Seq<Instruction>, i: nat)
    requires
        packs(w, instrs),
        forall|k: int| 0 <= k < instrs.len() ==> (#[trigger] instrs[k]).encodable(),
    ensures
        i < instrs.len() ==> instruction_at(w, i) == instrs[i as int],
        i >= instrs.len() ==> instruction_at(w, i) == Instruction::NoInstruction,
{
    if i < 8 {
        assert(field(w, i) == (if i < instrs.len() {
            instrs[i as int].encode()
        } else {
            0
        }));
        if i < instrs.len() {
            lemma_decode_encode(instrs[i as int]);
        }
    }
}

} // verus!
