//! The texts that describe a program and a board, and how they are read.
//!
//! A program text has one section per band, the sections parted by commas;
//! a section is a run of instructions, each a guard character followed by an
//! action character. A board text has one section per stack; a section names
//! the boxes of the stack from the bottom up, one character each.

use crate::program::field;
use crate::program::lemma_empty_band;
use crate::program::packs;
use crate::program::set_field;
use crate::stack::lemma_zero_stack;
use crate::stack::set_slot;
use crate::stack::settled;
use crate::stack::slot;
use crate::stack::stack_boxes;
use crate::stack::stack_ok;
use crate::symbols::Box;
use crate::symbols::IfColor;
use crate::symbols::Instruction;
use crate::symbols::OpCode;
use vstd::prelude::*;

verus! {

/// Why a text was not accepted.
#[derive(Clone, Copy, PartialEq, Eq, Structural, Debug)]
pub enum EncodingError {
    /// A character that stands for nothing where it stands, or a guard
    /// without an action.
    UnknownToken,
    /// A stack with more than six slots.
    StackOverflow,
    /// A band with more than eight instructions, or a fifth band.
    ProgramOverflow,
    /// A box above an empty slot.
    FloatingBox,
    /// A board text that names fewer stacks than the machine is wide.
    WidthMismatch,
}

/// What has been read of a program text: the bands so far, the last of them
/// still open, and the guard of an instruction whose action is yet to come.
pub struct ProgramScan {
    pub bands: Seq<Seq<Instruction>>,
    pub pending: Option<IfColor>,
}

/// Before any character: one open band without instructions.
pub open spec fn program_start() -> ProgramScan {
    ProgramScan { bands: seq![Seq::<Instruction>::empty()], pending: None }
}

/// What one more character makes of what has been read.
pub open spec fn program_feed(st: ProgramScan, c: char) -> Result<ProgramScan, EncodingError> {
    match st.pending {
        Some(guard) => match OpCode::of_char(c) {
            Some(op) => Ok(
                ProgramScan {
                    bands: st.bands.update(
                        st.bands.len() - 1,
                        st.bands.last().push(Instruction::Real(guard, op)),
                    ),
                    pending: None,
                },
            ),
            None => Err(EncodingError::UnknownToken),
        },
        None => if c == ',' {
            if st.bands.len() >= 4 {
                Err(EncodingError::ProgramOverflow)
            } else {
                Ok(ProgramScan { bands: st.bands.push(Seq::empty()), pending: None })
            }
        } else {
            match IfColor::of_char(c) {
                None => Err(EncodingError::UnknownToken),
                Some(guard) => if st.bands.last().len() >= 8 {
                    Err(EncodingError::ProgramOverflow)
                } else {
                    Ok(ProgramScan { bands: st.bands, pending: Some(guard) })
                },
            }
        },
    }
}

/// What reading a text from its first character to its last gives. The
/// first character that cannot be taken decides the error.
pub open spec fn program_scan(s: Seq<char>) -> Result<ProgramScan, EncodingError>
    decreases s.len(),
{
    if s.len() == 0 {
        Ok(program_start())
    } else {
        match program_scan(s.drop_last()) {
            Err(e) => Err(e),
            Ok(st) => program_feed(st, s.last()),
        }
    }
}

/// The bands that a program text describes.
pub open spec fn parse_program(s: Seq<char>) -> Result<Seq<Seq<Instruction>>, EncodingError> {
    match program_scan(s) {
        Err(e) => Err(e),
        Ok(st) => if st.pending is Some {
            Err(EncodingError::UnknownToken)
        } else {
            Ok(st.bands)
        },
    }
}

/// Band `b` of a program; a band that the text does not reach is empty.
pub open spec fn band_or_empty(bands: Seq<Seq<Instruction>>, b: int) -> Seq<Instruction> {
    if 0 <= b < bands.len() {
        bands[b]
    } else {
        Seq::empty()
    }
}

/// An instruction as a program text writes it: a guard and an action.
pub open spec fn written(ins: Instruction) -> bool {
    match ins {
        Instruction::NoInstruction => false,
        Instruction::Real(guard, op) => guard != IfColor::Nop && op != OpCode::Nop,
    }
}

/// The shape of a program that a text describes: one to four bands, at most
/// eight instructions in each, every one with a guard and an action.
pub open spec fn program_shape(bands: Seq<Seq<Instruction>>) -> bool {
    &&& 1 <= bands.len() <= 4
    &&& forall|b: int| 0 <= b < bands.len() ==> (#[trigger] bands[b]).len() <= 8
    &&& forall|b: int, i: int|
        0 <= b < bands.len() && 0 <= i < bands[b].len() ==> written(#[trigger] bands[b][i])
}

/// Whatever has been read of a program text has the shape of a program, and
/// a guard is taken only where its band has room for an instruction.
pub proof fn lemma_scan_shape(s: Seq<char>)
    ensures
        match program_scan(s) {
            Err(_) => true,
            Ok(st) => program_shape(st.bands) && (match st.pending {
                None => true,
                Some(guard) => guard != IfColor::Nop && st.bands.last().len() < 8,
            }),
        },
    decreases s.len(),
{
    if s.len() > 0 {
        lemma_scan_shape(s.drop_last());
        match program_scan(s.drop_last()) {
            Err(_) => {},
            Ok(st) => {
                match program_feed(st, s.last()) {
                    Err(_) => {},
                    Ok(next) => {
                        assert forall|b: int, i: int|
                            0 <= b < next.bands.len() && 0 <= i < next.bands[b].len() implies written(
                            #[trigger] next.bands[b][i],
                        ) by {
                            if b < st.bands.len() && i < st.bands[b].len() {
                                assert(written(st.bands[b][i]));
                            }
                        }
                    },
                }
            },
        }
    }
}

/// The bands that a program text describes have the shape of a program.
pub proof fn lemma_parse_shape(s: Seq<char>)
    ensures
        match parse_program(s) {
            Err(_) => true,
            Ok(bands) => program_shape(bands),
        },
{
    lemma_scan_shape(s);
}

/// The two characters of an instruction: its guard and its action.
pub open spec fn instruction_chars(ins: Instruction) -> Seq<char> {
    match ins {
        Instruction::NoInstruction => Seq::empty(),
        Instruction::Real(guard, op) => seq![guard.glyph(), op.glyph()],
    }
}

/// The section of a program text that names a band.
pub open spec fn band_chars(instrs: Seq<Instruction>) -> Seq<char>
    decreases instrs.len(),
{
    if instrs.len() == 0 {
        Seq::empty()
    } else {
        band_chars(instrs.drop_last()) + instruction_chars(instrs.last())
    }
}

/// The program text that names some bands: their sections, with a comma
/// between one and the next.
pub open spec fn bands_chars(bands: Seq<Seq<Instruction>>) -> Seq<char>
    decreases bands.len(),
{
    if bands.len() == 0 {
        Seq::empty()
    } else if bands.len() == 1 {
        band_chars(bands[0])
    } else {
        bands_chars(bands.drop_last()) + seq![','] + band_chars(bands.last())
    }
}

/// What has been read of a program text is that text: the bands so far, and
/// the guard whose action is yet to come.
pub proof fn lemma_scan_text(s: Seq<char>)
    ensures
        match program_scan(s) {
            Err(_) => true,
            Ok(st) => st.bands.len() >= 1 && s == bands_chars(st.bands) + (match st.pending {
                None => Seq::<char>::empty(),
                Some(guard) => seq![guard.glyph()],
            }),
        },
    decreases s.len(),
{
    if s.len() == 0 {
        assert(bands_chars(program_start().bands) =~= Seq::<char>::empty()) by {
            reveal_with_fuel(bands_chars, 2);
            reveal_with_fuel(band_chars, 2);
        }
        assert(s =~= bands_chars(program_start().bands) + Seq::<char>::empty());
    } else {
        lemma_scan_text(s.drop_last());
        let c = s.last();
        assert(s =~= s.drop_last().push(c));
        match program_scan(s.drop_last()) {
            Err(_) => {},
            Ok(st) => {
                match program_feed(st, c) {
                    Err(_) => {},
                    Ok(next) => {
                        let head = if st.bands.len() == 1 {
                            Seq::<char>::empty()
                        } else {
                            bands_chars(st.bands.drop_last()) + seq![',']
                        };
                        assert(bands_chars(st.bands) =~= head + band_chars(st.bands.last()));
                        match st.pending {
                            Some(guard) => {
                                let op = OpCode::of_char(c).unwrap();
                                let open = st.bands.last().push(Instruction::Real(guard, op));
                                assert(next.bands.drop_last() =~= st.bands.drop_last());
                                assert(open.drop_last() =~= st.bands.last());
                                assert(band_chars(open) =~= band_chars(st.bands.last())
                                    + seq![guard.glyph(), c]);
                                assert(bands_chars(next.bands) =~= head + band_chars(open));
                                assert(s =~= bands_chars(next.bands) + Seq::<char>::empty());
                            },
                            None => {
                                if c == ',' {
                                    assert(next.bands.drop_last() =~= st.bands);
                                    assert(band_chars(next.bands.last()) =~= Seq::<char>::empty());
                                    assert(s =~= bands_chars(next.bands) + Seq::<char>::empty());
                                } else {
                                    assert(s =~= bands_chars(next.bands) + seq![c]);
                                }
                            },
                        }
                    },
                }
            },
        }
    }
}

/// A program text that is accepted is the text of the bands that it
/// describes: no two texts describe the same bands.
pub proof fn lemma_program_text(s: Seq<char>)
    ensures
        match parse_program(s) {
            Err(_) => true,
            Ok(bands) => s == bands_chars(bands),
        },
{
    lemma_scan_text(s);
    match parse_program(s) {
        Err(_) => {},
        Ok(bands) => {
            assert(s =~= bands_chars(bands) + Seq::<char>::empty());
        },
    }
}

/// Reading one more character feeds it to what has been read.
pub proof fn lemma_scan_push(s: Seq<char>, c: char)
    ensures
        program_scan(s.push(c)) == (match program_scan(s) {
            Err(e) => Err(e),
            Ok(st) => program_feed(st, c),
        }),
{
    assert(s.push(c).drop_last() =~= s);
}

/// Reading the two characters of an instruction puts it at the end of the
/// open band.
proof fn lemma_scan_instruction(s: Seq<char>, st: ProgramScan, ins: Instruction)
    requires
        program_scan(s) == Ok::<ProgramScan, EncodingError>(st),
        st.pending is None,
        st.bands.len() >= 1,
        st.bands.last().len() < 8,
        written(ins),
    ensures
        program_scan(s + instruction_chars(ins)) == Ok::<ProgramScan, EncodingError>(
            ProgramScan {
                bands: st.bands.update(st.bands.len() - 1, st.bands.last().push(ins)),
                pending: None,
            },
        ),
{
    match ins {
        Instruction::NoInstruction => {},
        Instruction::Real(guard, op) => {
            lemma_scan_push(s, guard.glyph());
            lemma_scan_push(s.push(guard.glyph()), op.glyph());
            assert(s + instruction_chars(ins) =~= s.push(guard.glyph()).push(op.glyph()));
        },
    }
}

/// Reading the section of a band into an open band without instructions
/// makes it that band.
proof fn lemma_scan_band(s: Seq<char>, st: ProgramScan, instrs: Seq<Instruction>)
    requires
        program_scan(s) == Ok::<ProgramScan, EncodingError>(st),
        st.pending is None,
        st.bands.len() >= 1,
        st.bands.last().len() == 0,
        instrs.len() <= 8,
        forall|i: int| 0 <= i < instrs.len() ==> written(#[trigger] instrs[i]),
    ensures
        program_scan(s + band_chars(instrs)) == Ok::<ProgramScan, EncodingError>(
            ProgramScan { bands: st.bands.update(st.bands.len() - 1, instrs), pending: None },
        ),
    decreases instrs.len(),
{
    let last = st.bands.len() - 1;
    if instrs.len() == 0 {
        assert(s + band_chars(instrs) =~= s);
        assert(instrs =~= st.bands.last());
        assert(st.bands.update(last, instrs) =~= st.bands);
    } else {
        let front = instrs.drop_last();
        lemma_scan_band(s, st, front);
        let mid = ProgramScan { bands: st.bands.update(last, front), pending: None };
        lemma_scan_instruction(s + band_chars(front), mid, instrs.last());
        assert(s + band_chars(instrs) =~= (s + band_chars(front)) + instruction_chars(
            instrs.last(),
        ));
        assert(front.push(instrs.last()) =~= instrs);
        assert(mid.bands.update(last, mid.bands.last().push(instrs.last()))
            =~= st.bands.update(last, instrs));
    }
}

/// Reading the text of a program gives its bands.
proof fn lemma_scan_bands(bands: Seq<Seq<Instruction>>)
    requires
        program_shape(bands),
    ensures
        program_scan(bands_chars(bands)) == Ok::<ProgramScan, EncodingError>(
            ProgramScan { bands: bands, pending: None },
        ),
    decreases bands.len(),
{
    let nothing = Seq::<char>::empty();
    if bands.len() == 1 {
        assert(nothing + band_chars(bands[0]) =~= bands_chars(bands));
        lemma_scan_band(nothing, program_start(), bands[0]);
        assert(program_start().bands.update(0, bands[0]) =~= bands);
    } else {
        let front = bands.drop_last();
        assert(program_shape(front)) by {
            assert forall|b: int| 0 <= b < front.len() implies (#[trigger] front[b]).len()
                <= 8 by {
                assert(bands[b].len() <= 8);
            }
            assert forall|b: int, i: int|
                0 <= b < front.len() && 0 <= i < front[b].len() implies written(
                #[trigger] front[b][i],
            ) by {
                assert(written(bands[b][i]));
            }
        }
        lemma_scan_bands(front);
        let s = bands_chars(front);
        lemma_scan_push(s, ',');
        let st = ProgramScan { bands: front.push(Seq::empty()), pending: None };
        assert forall|i: int| 0 <= i < bands.last().len() implies written(
            #[trigger] bands.last()[i],
        ) by {
            assert(written(bands[bands.len() - 1][i]));
        }
        lemma_scan_band(s.push(','), st, bands.last());
        assert(s.push(',') + band_chars(bands.last()) =~= bands_chars(bands));
        assert(st.bands.update(st.bands.len() - 1, bands.last()) =~= bands);
    }
}

/// Every text of a program is accepted, and describes that program: one to
/// four sections, at most eight instructions in each, every instruction a
/// guard character and an action character.
pub proof fn lemma_program_accepted(bands: Seq<Seq<Instruction>>)
    requires
        program_shape(bands),
    ensures
        parse_program(bands_chars(bands)) == Ok::<Seq<Seq<Instruction>>, EncodingError>(bands),
{
    lemma_scan_bands(bands);
}

/// Once a character could not be taken, no later one mends it.
pub proof fn lemma_program_error_stays(s: Seq<char>, k: int)
    requires
        0 <= k <= s.len(),
        program_scan(s.take(k)) is Err,
    ensures
        program_scan(s) == program_scan(s.take(k)),
    decreases s.len() - k,
{
    if k == s.len() {
        assert(s.take(k) =~= s);
    } else {
        assert(s.drop_last().take(k) =~= s.take(k));
        lemma_program_error_stays(s.drop_last(), k);
    }
}

/// Reads a program text into its four packed bands.
pub fn read_program(text: &str) -> (r: Result<[u64; 4], EncodingError>)
    ensures
        match parse_program(text@) {
            Err(e) => r == Err::<[u64; 4], EncodingError>(e),
            Ok(bands) => r is Ok && forall|b: int|
                0 <= b < 4 ==> packs(#[trigger] r.unwrap()@[b], band_or_empty(bands, b)),
        },
{
    let n = text.unicode_len();
    let mut words: [u64; 4] = [0u64;4];
    let mut band: usize = 0;
    let mut count: u8 = 0;
    let mut pending: Option<IfColor> = None;
    let ghost mut st = program_start();
    let mut i: usize = 0;
    proof {
        lemma_empty_band();
        assert(text@.take(0) =~= Seq::<char>::empty());
    }
    while i < n
        invariant
            i <= n,
            n == text@.len(),
            program_scan(text@.take(i as int)) == Ok::<ProgramScan, EncodingError>(st),
            st.pending == pending,
            st.bands.len() == band + 1,
            band < 4,
            st.bands.last().len() == count,
            count <= 8,
            forall|b: int| 0 <= b < 4 ==> packs(#[trigger] words@[b], band_or_empty(st.bands, b)),
        decreases n - i,
    {
        let c = text.get_char(i);
        proof {
            assert(text@.take(i + 1).drop_last() =~= text@.take(i as int));
            assert(text@.take(i + 1).last() == c);
        }
        match pending {
            Some(guard) => match OpCode::from_char(c) {
                Some(op) => {
                    let ghost before = words@[band as int];
                    let ghost old_band = st.bands.last();
                    let w = set_field(words[band], count, Instruction::Real(guard, op).to_bits());
                    words[band] = w;
                    proof {
                        let ins = Instruction::Real(guard, op);
                        st =
                        ProgramScan {
                            bands: st.bands.update(band as int, old_band.push(ins)),
                            pending: None,
                        };
                        assert forall|j: nat| j < 8 implies #[trigger] field(w, j)
                            == (if j < old_band.push(ins).len() {
                            old_band.push(ins)[j as int].encode()
                        } else {
                            0
                        }) by {
                            assert(field(before, j) == (if j < old_band.len() {
                                old_band[j as int].encode()
                            } else {
                                0
                            }));
                        }
                        assert(packs(w, old_band.push(ins)));
                    }
                    count = count + 1;
                    pending = None;
                },
                None => {
                    proof {
                        lemma_program_error_stays(text@, i + 1);
                    }
                    return Err(EncodingError::UnknownToken);
                },
            },
            None => if c == ',' {
                if band >= 3 {
                    proof {
                        lemma_program_error_stays(text@, i + 1);
                    }
                    return Err(EncodingError::ProgramOverflow);
                }
                proof {
                    st = ProgramScan { bands: st.bands.push(Seq::empty()), pending: None };
                }
                band = band + 1;
                count = 0;
            } else {
                match IfColor::from_char(c) {
                    None => {
                        proof {
                            lemma_program_error_stays(text@, i + 1);
                        }
                        return Err(EncodingError::UnknownToken);
                    },
                    Some(guard) => {
                        if count >= 8 {
                            proof {
                                lemma_program_error_stays(text@, i + 1);
                            }
                            return Err(EncodingError::ProgramOverflow);
                        }
                        proof {
                            st = ProgramScan { bands: st.bands, pending: Some(guard) };
                        }
                        pending = Some(guard);
                    },
                }
            },
        }
        i = i + 1;
    }
    assert(text@.take(i as int) =~= text@);
    if pending.is_some() {
        Err(EncodingError::UnknownToken)
    } else {
        Ok(words)
    }
}

/// Before any character of a board text: one open stack without boxes.
pub open spec fn board_start() -> Seq<Seq<Box>> {
    seq![Seq::<Box>::empty()]
}

/// What one more character makes of the stacks read so far, the last of
/// them still open.
pub open spec fn board_feed(stacks: Seq<Seq<Box>>, c: char) -> Result<
    Seq<Seq<Box>>,
    EncodingError,
> {
    if c == ',' {
        Ok(stacks.push(Seq::empty()))
    } else {
        match Box::of_char(c) {
            None => Err(EncodingError::UnknownToken),
            Some(b) => {
                let open = stacks.last();
                if open.len() >= 6 {
                    Err(EncodingError::StackOverflow)
                } else if b != Box::Empty && open.len() > 0 && open.last() == Box::Empty {
                    Err(EncodingError::FloatingBox)
                } else {
                    Ok(stacks.update(stacks.len() - 1, open.push(b)))
                }
            },
        }
    }
}

/// What reading a board text from its first character to its last gives.
/// The first character that cannot be taken decides the error.
pub open spec fn board_scan(s: Seq<char>) -> Result<Seq<Seq<Box>>, EncodingError>
    decreases s.len(),
{
    if s.len() == 0 {
        Ok(board_start())
    } else {
        match board_scan(s.drop_last()) {
            Err(e) => Err(e),
            Ok(stacks) => board_feed(stacks, s.last()),
        }
    }
}

/// The six slots of a stack whose boxes were named from the bottom up.
pub open spec fn pad(named: Seq<Box>) -> Seq<Box> {
    Seq::new(
        6,
        |i: int|
            if i < named.len() {
                named[i]
            } else {
                Box::Empty
            },
    )
}

/// The board of `width` stacks that a board text describes: its first
/// `width` stacks. Stacks named after them are read, and an error in them
/// is an error of the text, but they are not part of the board.
pub open spec fn parse_board(s: Seq<char>, width: nat) -> Result<Seq<Seq<Box>>, EncodingError> {
    match board_scan(s) {
        Err(e) => Err(e),
        Ok(stacks) => if stacks.len() < width {
            Err(EncodingError::WidthMismatch)
        } else {
            Ok(Seq::new(width, |k: int| pad(stacks[k])))
        },
    }
}

/// The section of a board text that names a stack from the bottom up.
pub open spec fn stack_chars(named: Seq<Box>) -> Seq<char> {
    Seq::new(named.len(), |i: int| named[i].letter())
}

/// The board text that names some stacks: their sections, with a comma
/// between one and the next.
pub open spec fn stacks_chars(stacks: Seq<Seq<Box>>) -> Seq<char>
    decreases stacks.len(),
{
    if stacks.len() == 0 {
        Seq::empty()
    } else if stacks.len() == 1 {
        stack_chars(stacks[0])
    } else {
        stacks_chars(stacks.drop_last()) + seq![','] + stack_chars(stacks.last())
    }
}

/// What has been read of a board text is that text, and it has the shape
/// of a board: at most six slots named in a stack, and no box named after
/// an empty slot.
pub proof fn lemma_board_text(s: Seq<char>)
    ensures
        match board_scan(s) {
            Err(_) => true,
            Ok(stacks) => {
                &&& stacks.len() >= 1
                &&& s == stacks_chars(stacks)
                &&& forall|k: int| 0 <= k < stacks.len() ==> (#[trigger] stacks[k]).len() <= 6
                &&& forall|k: int| 0 <= k < stacks.len() ==> settled(pad(#[trigger] stacks[k]))
            },
        },
    decreases s.len(),
{
    if s.len() == 0 {
        assert(stacks_chars(board_start()) =~= Seq::<char>::empty()) by {
            reveal_with_fuel(stacks_chars, 2);
        }
    } else {
        lemma_board_text(s.drop_last());
        let c = s.last();
        assert(s =~= s.drop_last().push(c));
        match board_scan(s.drop_last()) {
            Err(_) => {},
            Ok(stacks) => {
                match board_feed(stacks, c) {
                    Err(_) => {},
                    Ok(next) => {
                        let head = if stacks.len() == 1 {
                            Seq::<char>::empty()
                        } else {
                            stacks_chars(stacks.drop_last()) + seq![',']
                        };
                        assert(stacks_chars(stacks) =~= head + stack_chars(stacks.last()));
                        if c == ',' {
                            assert(next.drop_last() =~= stacks);
                            assert(stack_chars(next.last()) =~= Seq::<char>::empty());
                            assert(s =~= stacks_chars(next));
                            assert forall|k: int| 0 <= k < next.len() implies settled(
                                pad(#[trigger] next[k]),
                            ) by {
                                if k < stacks.len() {
                                    assert(settled(pad(stacks[k])));
                                }
                            }
                        } else {
                            let b = Box::of_char(c).unwrap();
                            let open = stacks.last();
                            assert(next.drop_last() =~= stacks.drop_last());
                            assert(stack_chars(open.push(b)) =~= stack_chars(open) + seq![c]);
                            assert(stacks_chars(next) =~= head + stack_chars(open.push(b)));
                            assert(s =~= stacks_chars(next));
                            assert forall|k: int| 0 <= k < next.len() implies settled(
                                pad(#[trigger] next[k]),
                            ) by {
                                assert(settled(pad(stacks[k])));
                                if k == stacks.len() - 1 {
                                    let t = pad(open.push(b));
                                    let n = open.len() as int;
                                    assert forall|i: int, j: int|
                                        0 <= i < j < 6 && t[i] == Box::Empty implies t[j]
                                        == Box::Empty by {
                                        if j == n {
                                            if b != Box::Empty {
                                                assert(open.last() != Box::Empty);
                                                assert(pad(open)[n - 1] == open[n - 1]);
                                                assert(t[i] == open[i]);
                                                assert(pad(open)[i] == open[i]);
                                            }
                                        } else if j < n {
                                            assert(t[i] == pad(open)[i]);
                                            assert(t[j] == pad(open)[j]);
                                        } else {
                                            assert(t[j] == Box::Empty);
                                        }
                                    }
                                }
                            }
                        }
                    },
                }
            },
        }
    }
}

/// The boxes of a stack as a text names them: no box after an empty slot.
pub open spec fn tidy(named: Seq<Box>) -> bool {
    forall|i: int, j: int|
        0 <= i < j < named.len() && named[i] == Box::Empty ==> named[j] == Box::Empty
}

/// The shape of the stacks that a board text names: at least one stack, at
/// most six slots named in each, and no box after an empty slot.
pub open spec fn board_shape(stacks: Seq<Seq<Box>>) -> bool {
    &&& stacks.len() >= 1
    &&& forall|k: int| 0 <= k < stacks.len() ==> (#[trigger] stacks[k]).len() <= 6
    &&& forall|k: int| 0 <= k < stacks.len() ==> tidy(#[trigger] stacks[k])
}

/// Reading one more character of a board text feeds it to what has been
/// read.
pub proof fn lemma_board_push(s: Seq<char>, c: char)
    ensures
        board_scan(s.push(c)) == (match board_scan(s) {
            Err(e) => Err(e),
            Ok(stacks) => board_feed(stacks, c),
        }),
{
    assert(s.push(c).drop_last() =~= s);
}

/// Reading the section of a stack into an open stack without boxes makes
/// it that stack.
proof fn lemma_scan_stack(s: Seq<char>, stacks: Seq<Seq<Box>>, named: Seq<Box>)
    requires
        board_scan(s) == Ok::<Seq<Seq<Box>>, EncodingError>(stacks),
        stacks.len() >= 1,
        stacks.last().len() == 0,
        named.len() <= 6,
        tidy(named),
    ensures
        board_scan(s + stack_chars(named)) == Ok::<Seq<Seq<Box>>, EncodingError>(
            stacks.update(stacks.len() - 1, named),
        ),
    decreases named.len(),
{
    let last = stacks.len() - 1;
    if named.len() == 0 {
        assert(s + stack_chars(named) =~= s);
        assert(named =~= stacks.last());
        assert(stacks.update(last, named) =~= stacks);
    } else {
        let front = named.drop_last();
        let b = named.last();
        assert(tidy(front)) by {
            assert forall|i: int, j: int|
                0 <= i < j < front.len() && front[i] == Box::Empty implies front[j]
                == Box::Empty by {
                assert(named[i] == Box::Empty);
                assert(named[j] == Box::Empty);
            }
        }
        lemma_scan_stack(s, stacks, front);
        let mid = stacks.update(last, front);
        lemma_board_push(s + stack_chars(front), b.letter());
        assert(s + stack_chars(named) =~= (s + stack_chars(front)).push(b.letter()));
        if front.len() > 0 && b != Box::Empty {
            assert(named[front.len() - 1] == front.last());
            assert(front.last() != Box::Empty);
        }
        assert(front.push(b) =~= named);
        assert(mid.update(last, mid.last().push(b)) =~= stacks.update(last, named));
    }
}

/// Every text of stacks of that shape is accepted, and names those stacks.
pub proof fn lemma_board_accepted(stacks: Seq<Seq<Box>>)
    requires
        board_shape(stacks),
    ensures
        board_scan(stacks_chars(stacks)) == Ok::<Seq<Seq<Box>>, EncodingError>(stacks),
    decreases stacks.len(),
{
    let nothing = Seq::<char>::empty();
    if stacks.len() == 1 {
        assert(nothing + stack_chars(stacks[0]) =~= stacks_chars(stacks));
        lemma_scan_stack(nothing, board_start(), stacks[0]);
        assert(board_start().update(0, stacks[0]) =~= stacks);
    } else {
        let front = stacks.drop_last();
        assert(board_shape(front)) by {
            assert forall|k: int| 0 <= k < front.len() implies (#[trigger] front[k]).len()
                <= 6 by {
                assert(stacks[k].len() <= 6);
            }
            assert forall|k: int| 0 <= k < front.len() implies tidy(#[trigger] front[k]) by {
                assert(tidy(stacks[k]));
            }
        }
        lemma_board_accepted(front);
        let s = stacks_chars(front);
        lemma_board_push(s, ',');
        let open = front.push(Seq::<Box>::empty());
        assert(tidy(stacks[stacks.len() - 1]));
        assert(stacks[stacks.len() - 1].len() <= 6);
        lemma_scan_stack(s.push(','), open, stacks.last());
        assert(s.push(',') + stack_chars(stacks.last()) =~= stacks_chars(stacks));
        assert(open.update(open.len() - 1, stacks.last()) =~= stacks);
    }
}

/// Once a character could not be taken, no later one mends it.
pub proof fn lemma_board_error_stays(s: Seq<char>, k: int)
    requires
        0 <= k <= s.len(),
        board_scan(s.take(k)) is Err,
    ensures
        board_scan(s) == board_scan(s.take(k)),
    decreases s.len() - k,
{
    if k == s.len() {
        assert(s.take(k) =~= s);
    } else {
        assert(s.drop_last().take(k) =~= s.take(k));
        lemma_board_error_stays(s.drop_last(), k);
    }
}

/// Writing the next named box into a packed stack keeps it a packed stack.
proof fn lemma_named_box(w: u32, v: u32, named: Seq<Box>, b: Box)
    requires
        stack_ok(w),
        named.len() < 6,
        stack_boxes(w) == pad(named),
        b != Box::Empty ==> named.len() == 0 || named.last() != Box::Empty,
        stack_boxes(v) == stack_boxes(w).update(named.len() as int, b),
        v < 0x40000,
        forall|j: nat|
            j < 6 ==> #[trigger] slot(v, j) == (if j == named.len() {
                b.code()
            } else {
                slot(w, j)
            }),
    ensures
        stack_ok(v),
        stack_boxes(v) == pad(named.push(b)),
{
    let s = stack_boxes(w);
    let t = stack_boxes(v);
    let n = named.len() as int;
    assert(t =~= pad(named.push(b)));
    assert forall|j: nat| j < 6 implies #[trigger] slot(v, j) <= 4 by {
        assert(slot(w, j) <= 4);
    }
    assert forall|i: int, j: int| 0 <= i < j < 6 && t[i] == Box::Empty implies t[j]
        == Box::Empty by {
        if j == n {
            if b != Box::Empty {
                assert(s[n - 1] == named.last());
                assert(s[i] == Box::Empty);
            }
        } else if i != n {
            assert(s[i] == Box::Empty);
        }
    }
}

/// Reads a board text into the packed stacks of a board of `WIDTH` stacks.
pub fn read_board<const WIDTH: usize>(text: &str) -> (r: Result<[u32; WIDTH], EncodingError>)
    ensures
        match parse_board(text@, WIDTH as nat) {
            Err(e) => r == Err::<[u32; WIDTH], EncodingError>(e),
            Ok(board) => r is Ok && r.unwrap()@.len() == WIDTH && (forall|k: int|
                0 <= k < WIDTH ==> stack_ok(#[trigger] r.unwrap()@[k]) && stack_boxes(
                    r.unwrap()@[k],
                ) == board[k]),
        },
{
    let n = text.unicode_len();
    let mut words: [u32; WIDTH] = [0u32;WIDTH];
    let mut k: usize = 0;
    let mut count: u8 = 0;
    let mut capped: bool = false;
    let ghost mut stacks = board_start();
    let mut i: usize = 0;
    proof {
        lemma_zero_stack();
        assert(text@.take(0) =~= Seq::<char>::empty());
        assert forall|j: int| 0 <= j < WIDTH implies stack_boxes(#[trigger] words@[j]) == pad(
            Seq::<Box>::empty(),
        ) by {
            assert(stack_boxes(0) =~= pad(Seq::<Box>::empty()));
        }
    }
    while i < n
        invariant
            i <= n,
            n == text@.len(),
            board_scan(text@.take(i as int)) == Ok::<Seq<Seq<Box>>, EncodingError>(stacks),
            stacks.len() == k + 1,
            k <= i,
            stacks.last().len() == count,
            count <= 6,
            capped == (count > 0 && stacks.last().last() == Box::Empty),
            forall|j: int| 0 <= j < WIDTH ==> stack_ok(#[trigger] words@[j]),
            forall|j: int|
                0 <= j < WIDTH && j <= k ==> stack_boxes(#[trigger] words@[j]) == pad(stacks[j]),
            forall|j: int|
                0 <= j < WIDTH && j > k ==> stack_boxes(#[trigger] words@[j]) == pad(
                    Seq::<Box>::empty(),
                ),
        decreases n - i,
    {
        let c = text.get_char(i);
        proof {
            assert(text@.take(i + 1).drop_last() =~= text@.take(i as int));
            assert(text@.take(i + 1).last() == c);
        }
        if c == ',' {
            proof {
                stacks = stacks.push(Seq::empty());
            }
            k = k + 1;
            count = 0;
            capped = false;
        } else {
            match Box::from_char(c) {
                None => {
                    proof {
                        lemma_board_error_stays(text@, i + 1);
                    }
                    return Err(EncodingError::UnknownToken);
                },
                Some(b) => {
                    if count >= 6 {
                        proof {
                            lemma_board_error_stays(text@, i + 1);
                        }
                        return Err(EncodingError::StackOverflow);
                    }
                    if b != Box::Empty && capped {
                        proof {
                            lemma_board_error_stays(text@, i + 1);
                        }
                        return Err(EncodingError::FloatingBox);
                    }
                    let ghost open = stacks.last();
                    if k < WIDTH {
                        let w = words[k];
                        let v = set_slot(w, count, b);
                        words[k] = v;
                        proof {
                            lemma_named_box(w, v, open, b);
                        }
                    }
                    proof {
                        stacks = stacks.update(k as int, open.push(b));
                    }
                    count = count + 1;
                    capped = b == Box::Empty;
                },
            }
        }
        i = i + 1;
    }
    assert(text@.take(i as int) =~= text@);
    if WIDTH > 0 && k < WIDTH - 1 {
        Err(EncodingError::WidthMismatch)
    } else {
        Ok(words)
    }
}

/// What the three texts of a machine describe.
pub struct Puzzle {
    pub bands: Seq<Seq<Instruction>>,
    pub board: Seq<Seq<Box>>,
    pub goal: Seq<Seq<Box>>,
}

/// The puzzle that a program text, a board text and a goal text describe
/// for a machine of `width` stacks. The program is read first, then the
/// board, then the goal, and the first text that fails decides the error.
pub open spec fn describe(program: Seq<char>, board: Seq<char>, goal: Seq<char>, width: nat)
    -> Result<Puzzle, EncodingError> {
    match parse_program(program) {
        Err(e) => Err(e),
        Ok(bands) => match parse_board(board, width) {
            Err(e) => Err(e),
            Ok(b) => match parse_board(goal, width) {
                Err(e) => Err(e),
                Ok(g) => Ok(Puzzle { bands: bands, board: b, goal: g }),
            },
        },
    }
}

impl EncodingError {
    /// The words for this error.
    pub fn message(&self) -> (r: String)
        ensures
            r@ == (match *self {
                EncodingError::UnknownToken => "unknown token"@,
                EncodingError::StackOverflow => "more than six boxes on a stack"@,
                EncodingError::ProgramOverflow => "more than four bands or eight instructions in a band"@,
                EncodingError::FloatingBox => "a box above an empty slot"@,
                EncodingError::WidthMismatch => "fewer stacks than the machine is wide"@,
            }),
    {
        match self {
            EncodingError::UnknownToken => String::from_str("unknown token"),
            EncodingError::StackOverflow => String::from_str("more than six boxes on a stack"),
            EncodingError::ProgramOverflow => String::from_str(
                "more than four bands or eight instructions in a band",
            ),
            EncodingError::FloatingBox => String::from_str("a box above an empty slot"),
            EncodingError::WidthMismatch => String::from_str("fewer stacks than the machine is wide"),
        }
    }
}

} // verus!
