//! What holds of every machine, whatever its program and its boards.

use crate::interp::candidates;
use crate::interp::first_solution;
use crate::interp::lemma_candidates_positive;
use crate::interp::loaded;
use crate::model::Machine;
use crate::model::ROUND_LIMIT;
use crate::model::StepState;
use crate::program::field;
use crate::program::instruction_at;
use crate::program::lemma_band_round_trip;
use crate::program::lemma_empty_band;
use crate::program::lemma_low_bits;
use crate::program::low_bits;
use crate::program::packs;
use crate::stack::lemma_put_top_settled;
use crate::stack::lemma_take_top_settled;
use crate::stack::put_top;
use crate::stack::settled;
use crate::stack::top_index;
use crate::symbols::Box;
use crate::symbols::Instruction;
use crate::symbols::OpCode;
use crate::text::EncodingError;
use crate::text::Puzzle;
use crate::text::band_or_empty;
use crate::text::bands_chars;
use crate::text::board_shape;
use crate::text::describe;
use crate::text::lemma_board_accepted;
use crate::text::lemma_program_accepted;
use crate::text::pad;
use crate::text::program_shape;
use crate::text::stacks_chars;
use crate::text::written;
use vstd::prelude::*;

verus! {

/// A step keeps the machine well formed: the boards keep their width, no
/// box comes to float above an empty slot, and the pointers name bands.
pub proof fn lemma_step_wf(m: Machine)
    requires
        m.wf(),
    ensures
        m.step().0.wf(),
{
    let n = m.step().0;
    if m.admitted() == Some(OpCode::Down) && m.on_board() {
        let s = m.board[m.dp as int];
        lemma_take_top_settled(s);
        if put_top(s, m.crane) is Some {
            lemma_put_top_settled(s, m.crane);
        }
    }
    assert forall|i: int| 0 <= i < n.board.len() implies settled(#[trigger] n.board[i]) by {
        assert(settled(m.board[i]));
    }
    assert forall|k: int| 0 <= k < n.calls.len() implies (#[trigger] n.calls[k]).0 < 4 by {
        if k < m.calls.len() {
            assert(m.calls[k].0 < 4);
        }
    }
    if m.calls.len() > 0 {
        assert(m.calls[m.calls.len() - 1].0 < 4);
    }
}

/// A run keeps the machine well formed.
pub proof fn lemma_run_wf(m: Machine, round: nat)
    requires
        m.wf(),
    ensures
        m.run(round).0.wf(),
    decreases ROUND_LIMIT - round,
{
    if round + 1 < ROUND_LIMIT {
        lemma_step_wf(m);
        if m.step().1 == StepState::Normal {
            lemma_run_wf(m.step().0, round + 1);
        }
    }
}

/// A step that moves no box leaves the board as it is.
pub proof fn lemma_board_stays(m: Machine)
    requires
        m.wf(),
        !m.moves_box(),
    ensures
        m.step().0.board == m.board,
{
    if m.admitted() == Some(OpCode::Down) && m.on_board() {
        let a = m.advance();
        let s = a.board[a.dp as int];
        if m.crane == Box::Empty {
            assert(a.board.update(a.dp as int, s) =~= a.board);
        }
    }
}

/// On a board that equals the goal, a step that moves no box ends
/// `Finished`: whatever its instruction is, a call, a move of the crane off
/// the board or the end of the outermost band, the comparison with the goal
/// comes first.
pub proof fn lemma_goal_board_finishes(m: Machine)
    requires
        m.wf(),
        m.board == m.goal,
        !m.moves_box(),
    ensures
        m.step().1 == StepState::Finished,
{
    lemma_board_stays(m);
}

/// An empty crane that goes down on an empty stack takes nothing: the
/// machine stays as it is, the crane empty, and no fault is met.
pub proof fn lemma_empty_pickup(m: Machine)
    requires
        m.wf(),
        m.crane == Box::Empty,
        m.on_board(),
        top_index(m.board[m.dp as int]) is None,
    ensures
        m.actuate() == (m, false),
{
    assert(m.board.update(m.dp as int, m.board[m.dp as int]) =~= m.board);
}

/// The comparison that ends a step, made once more on the machine as the
/// step left it, gives what the step gave.
pub proof fn lemma_classify_again(m: Machine)
    ensures
        m.step().0.classify(m.act().1) == m.step().1,
{
}

/// A move to the left from stack 0 takes the crane off the board, and the
/// step ends `Crashed` unless the board equals the goal.
pub proof fn lemma_left_edge(m: Machine)
    requires
        m.wf(),
        m.dp == 0,
        m.admitted() == Some(OpCode::Left),
    ensures
        !m.step().0.on_board(),
        m.board != m.goal ==> m.step().1 == StepState::Crashed,
        m.board == m.goal ==> m.step().1 == StepState::Finished,
{
}

/// A move to the right from the last stack takes the crane off the board,
/// and the step ends `Crashed` unless the board equals the goal.
pub proof fn lemma_right_edge(m: Machine)
    requires
        m.wf(),
        m.dp + 1 == m.board.len(),
        m.admitted() == Some(OpCode::Right),
    ensures
        m.step().0.dp == m.board.len(),
        !m.step().0.on_board(),
        m.board != m.goal ==> m.step().1 == StepState::Crashed,
        m.board == m.goal ==> m.step().1 == StepState::Finished,
{
}

/// The texts of a program and of two boards that name at least `width`
/// stacks each are accepted for a machine of that width. The puzzle is the
/// program and the first `width` stacks of each board.
pub proof fn lemma_texts_accepted(
    bands: Seq<Seq<Instruction>>,
    board: Seq<Seq<Box>>,
    goal: Seq<Seq<Box>>,
    width: nat,
)
    requires
        program_shape(bands),
        board_shape(board),
        board_shape(goal),
        board.len() >= width,
        goal.len() >= width,
    ensures
        match describe(bands_chars(bands), stacks_chars(board), stacks_chars(goal), width) {
            Err(_) => false,
            Ok(p) => {
                &&& p.bands == bands
                &&& p.board.len() == width
                &&& p.goal.len() == width
                &&& forall|k: int| 0 <= k < width ==> #[trigger] p.board[k] == pad(board[k])
                &&& forall|k: int| 0 <= k < width ==> #[trigger] p.goal[k] == pad(goal[k])
            },
        },
{
    lemma_program_accepted(bands);
    lemma_board_accepted(board);
    lemma_board_accepted(goal);
}

/// A board text that names fewer stacks than the machine is wide is
/// refused, whatever else the texts hold after an accepted program.
pub proof fn lemma_narrow_board_refused(
    bands: Seq<Seq<Instruction>>,
    board: Seq<Seq<Box>>,
    goal: Seq<char>,
    width: nat,
)
    requires
        program_shape(bands),
        board_shape(board),
        board.len() < width,
    ensures
        describe(bands_chars(bands), stacks_chars(board), goal, width) == Err::<
            Puzzle,
            EncodingError,
        >(EncodingError::WidthMismatch),
{
    lemma_program_accepted(bands);
    lemma_board_accepted(board);
}

/// A machine that was loaded with a program gives each written instruction
/// back from the slot it was written to, and no instruction from the slots
/// after the last written one.
pub proof fn lemma_program_round_trip(m: Machine, p: Puzzle, b: int, i: nat)
    requires
        loaded(m, p),
        program_shape(p.bands),
        0 <= b < 4,
    ensures
        instruction_at(m.bands[b], i) == (if b < p.bands.len() && i < p.bands[b].len() {
            p.bands[b][i as int]
        } else {
            Instruction::NoInstruction
        }),
{
    let instrs = band_or_empty(p.bands, b);
    assert(packs(m.bands[b], instrs));
    assert forall|k: int| 0 <= k < instrs.len() implies (#[trigger] instrs[k]).encodable() by {
        assert(written(p.bands[b][k]));
    }
    lemma_band_round_trip(m.bands[b], instrs, i);
}

/// A machine whose start board equals the goal is solved by the band
/// without instructions, in one round.
pub proof fn lemma_solved_at_start(m: Machine)
    requires
        m.wf(),
        m.start == m.goal,
    ensures
        m.solves(0),
{
    let f = m.with_first_band(0).fresh();
    lemma_empty_band();
    assert(field(0, 0) == 0);
    assert(f.current() == Instruction::NoInstruction);
    reveal_with_fuel(Machine::run, 2);
}

/// A step reads the first band by its low 48 bits only: with the bits above
/// them cleared it ends alike and leaves the same machine.
pub proof fn lemma_step_low_bits(m: Machine)
    requires
        m.wf(),
    ensures
        m.with_first_band(low_bits(m.bands[0])).step() == (
            m.step().0.with_first_band(low_bits(m.bands[0])),
            m.step().1,
        ),
{
    let low = low_bits(m.bands[0]);
    let n = m.with_first_band(low);
    lemma_low_bits(m.bands[0], m.ip.1);
    assert(n.current() == m.current());
    let (a, fa) = m.act();
    let (b, fb) = n.act();
    assert(fa == fb);
    assert(b == a.with_first_band(low));
}

/// A run reads the first band by its low 48 bits only.
pub proof fn lemma_run_low_bits(m: Machine, round: nat)
    requires
        m.wf(),
    ensures
        m.with_first_band(low_bits(m.bands[0])).run(round) == (
            m.run(round).0.with_first_band(low_bits(m.bands[0])),
            m.run(round).1,
        ),
    decreases ROUND_LIMIT - round,
{
    if round + 1 < ROUND_LIMIT {
        lemma_step_low_bits(m);
        lemma_step_wf(m);
        m.lemma_step_keeps();
        if m.step().1 == StepState::Normal {
            lemma_run_low_bits(m.step().0, round + 1);
        }
    }
}

/// Whether a band reaches the goal depends on the low 48 bits of its word
/// only: every word does what the candidate with the same eight slots does.
pub proof fn lemma_solves_low_bits(m: Machine, w: u64)
    requires
        m.wf(),
    ensures
        m.solves(w) == m.solves(low_bits(w)),
        m.trial(w).1 == m.trial(low_bits(w)).1,
{
    let a = m.with_first_band(w).fresh();
    let b = m.with_first_band(low_bits(w)).fresh();
    assert(a.bands[0] == w);
    assert(a.bands.update(0, low_bits(w)) =~= b.bands);
    assert(a.with_first_band(low_bits(w)) == b);
    lemma_run_low_bits(a, 0);
}

/// Where a search among the bands of all eight slots finds none, no word
/// at all reaches the goal as the first band.
pub proof fn lemma_search_covers_every_word(m: Machine)
    requires
        m.wf(),
        first_solution(m, 8, None),
    ensures
        forall|w: u64| !m.solves(w),
{
    assert(candidates(8) == 0x1_0000_0000_0000) by {
        reveal_with_fuel(candidates, 9);
    }
    assert forall|w: u64| !m.solves(w) by {
        lemma_low_bits(w, 0);
        lemma_solves_low_bits(m, w);
        assert(!m.solves(low_bits(w)));
    }
}

/// On a machine whose start board equals the goal, a search finds the band
/// without instructions, the first of all candidates.
pub proof fn lemma_search_on_solved(m: Machine, slots: nat, r: Option<u64>)
    requires
        m.wf(),
        m.start == m.goal,
        first_solution(m, slots, r),
    ensures
        r == Some(0u64),
{
    lemma_solved_at_start(m);
    lemma_candidates_positive(slots);
}

} // verus!
