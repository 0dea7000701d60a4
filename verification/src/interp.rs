//! The machine itself: the packed program and boards, the crane, the two
//! pointers and the saved instruction pointers, with the step, the run and
//! the search over candidate bands.

use crate::model::FinishState;
use crate::model::Machine;
use crate::model::ROUND_LIMIT;
use crate::model::StepState;
use crate::model::lemma_same_trial;
use crate::model::same_puzzle;
use crate::program::fetch;
use crate::program::instruction_at;
use crate::program::packs;
use crate::stack::get_slot;
use crate::stack::get_top;
use crate::stack::lemma_same_boxes_same_word;
use crate::stack::pick_up;
use crate::stack::put_down;
use crate::stack::settled;
use crate::stack::stack_boxes;
use crate::stack::stack_ok;
use crate::stack::top_slot;
use crate::symbols::Box;
use crate::symbols::Instruction;
use crate::symbols::OpCode;
use crate::text::EncodingError;
use crate::text::Puzzle;
use crate::text::band_or_empty;
use crate::text::describe;
use crate::text::read_board;
use crate::text::read_program;
use vstd::prelude::*;

verus! {

/// The board that a sequence of packed stacks shows.
pub open spec fn board_of(words: Seq<u32>) -> Seq<Seq<Box>> {
    Seq::new(words.len(), |i: int| stack_boxes(words[i]))
}

/// Every word is a packed stack.
pub open spec fn words_ok(words: Seq<u32>) -> bool {
    forall|i: int| 0 <= i < words.len() ==> stack_ok(#[trigger] words[i])
}

/// A saved instruction pointer as a pair of numbers.
pub open spec fn point(p: (u8, u8)) -> (nat, nat) {
    (p.0 as nat, p.1 as nat)
}

/// Sequences of packed stacks are equal exactly when they show equal boards.
pub proof fn lemma_boards_equal(a: Seq<u32>, b: Seq<u32>)
    requires
        words_ok(a),
        words_ok(b),
    ensures
        (a == b) <==> (board_of(a) == board_of(b)),
{
    if board_of(a) == board_of(b) {
        assert(a.len() == board_of(a).len());
        assert(b.len() == board_of(b).len());
        assert forall|i: int| 0 <= i < a.len() implies a[i] == b[i] by {
            assert(board_of(a)[i] == stack_boxes(a[i]));
            assert(board_of(b)[i] == stack_boxes(b[i]));
            lemma_same_boxes_same_word(a[i], b[i]);
        }
        assert(a =~= b);
    }
}

/// Compares two rows of packed stacks, stack by stack.
pub fn words_equal<const WIDTH: usize>(a: &[u32; WIDTH], b: &[u32; WIDTH]) -> (r: bool)
    ensures
        r == (a@ == b@),
{
    let mut i: usize = 0;
    while i < WIDTH
        invariant
            i <= WIDTH,
            forall|k: int| 0 <= k < i ==> a@[k] == b@[k],
        decreases WIDTH - i,
    {
        if a[i] != b[i] {
            return false;
        }
        i = i + 1;
    }
    assert(a@ =~= b@);
    true
}

/// The machine: a program of four packed bands, the board with the board to
/// reach and the board to start from, and the state of a run.
#[derive(Debug)]
pub struct CbInterpret<const WIDTH: usize> {
    pub data: [u32; WIDTH],
    finish_state: [u32; WIDTH],
    start: [u32; WIDTH],
    instructions: [u64; 4],
    ip: (u8, u8),
    stack: Vec<(u8, u8)>,
    dp: usize,
    crane: Box,
}

impl<const WIDTH: usize> View for CbInterpret<WIDTH> {
    type V = Machine;

    closed spec fn view(&self) -> Machine {
        Machine {
            bands: self.instructions@,
            goal: board_of(self.finish_state@),
            start: board_of(self.start@),
            board: board_of(self.data@),
            crane: self.crane,
            dp: self.dp as nat,
            ip: point(self.ip),
            calls: self.stack@.map_values(|p: (u8, u8)| point(p)),
        }
    }
}

impl<const WIDTH: usize> CbInterpret<WIDTH> {
    /// The words are packed stacks and the instruction pointers name bands.
    pub closed spec fn wf(&self) -> bool {
        &&& words_ok(self.data@)
        &&& words_ok(self.finish_state@)
        &&& words_ok(self.start@)
        &&& self.ip.0 < 4
        &&& forall|k: int| 0 <= k < self.stack@.len() ==> (#[trigger] self.stack@[k]).0 < 4
    }

    /// The packed stacks that the field `data` holds.
    pub closed spec fn data_words(&self) -> Seq<u32> {
        self.data@
    }

    /// A well-formed machine shows a well-formed state, with a board of
    /// `WIDTH` stacks.
    pub proof fn lemma_view_wf(&self)
        requires
            self.wf(),
        ensures
            self@.wf(),
            self@.board.len() == WIDTH,
            self@.board == board_of(self.data_words()),
            words_ok(self.data_words()),
    {
        assert forall|i: int| 0 <= i < self@.board.len() implies settled(
            #[trigger] self@.board[i],
        ) by {
            assert(stack_ok(self.data@[i]));
        }
        assert forall|i: int| 0 <= i < self@.goal.len() implies settled(
            #[trigger] self@.goal[i],
        ) by {
            assert(stack_ok(self.finish_state@[i]));
        }
        assert forall|i: int| 0 <= i < self@.start.len() implies settled(
            #[trigger] self@.start[i],
        ) by {
            assert(stack_ok(self.start@[i]));
        }
        assert forall|k: int| 0 <= k < self@.calls.len() implies (#[trigger] self@.calls[k]).0
            < 4 by {
            assert(self.stack@[k].0 < 4);
        }
    }

    /// Builds a machine from a program text, the text of the board to
    /// start from and the text of the board to reach.
    pub fn new(instructions_enc: &str, data_enc: &str, finish_data_enc: &str) -> (r: Result<
        CbInterpret<WIDTH>,
        EncodingError,
    >)
        ensures
            match describe(instructions_enc@, data_enc@, finish_data_enc@, WIDTH as nat) {
                Err(e) => match r {
                    Err(x) => x == e,
                    Ok(_) => false,
                },
                Ok(p) => match r {
                    Err(_) => false,
                    Ok(cb) => cb.wf() && loaded(cb@, p),
                },
            },
    {
        let instructions = match read_program(instructions_enc) {
            Err(e) => {
                return Err(e);
            },
            Ok(words) => words,
        };
        let data: [u32; WIDTH] = match read_board(data_enc) {
            Err(e) => {
                return Err(e);
            },
            Ok(words) => words,
        };
        let finish_state: [u32; WIDTH] = match read_board(finish_data_enc) {
            Err(e) => {
                return Err(e);
            },
            Ok(words) => words,
        };
        let cb = CbInterpret {
            data,
            finish_state,
            start: data,
            instructions,
            ip: (0, 0),
            stack: Vec::new(),
            dp: 0,
            crane: Box::Empty,
        };
        proof {
            let p = describe(instructions_enc@, data_enc@, finish_data_enc@, WIDTH as nat).unwrap();
            assert(cb@.board =~= p.board);
            assert(cb@.start =~= p.board);
            assert(cb@.goal =~= p.goal);
            assert(cb@.calls =~= Seq::<(nat, nat)>::empty());
        }
        Ok(cb)
    }

    /// What the crane holds.
    pub fn crane(&self) -> (r: Box)
        ensures
            r == self@.crane,
    {
        self.crane
    }

    /// The stack that the crane hovers over.
    pub fn dp(&self) -> (r: usize)
        ensures
            r == self@.dp,
    {
        self.dp
    }

    /// The band and the slot of the next instruction.
    pub fn ip(&self) -> (r: (u8, u8))
        ensures
            point(r) == self@.ip,
    {
        self.ip
    }

    /// The number of saved instruction pointers.
    pub fn depth(&self) -> (r: usize)
        ensures
            r == self@.calls.len(),
    {
        self.stack.len()
    }

    /// The four packed bands of the program.
    pub fn instructions(&self) -> (r: [u64; 4])
        ensures
            r@ == self@.bands,
    {
        self.instructions
    }

    /// The packed stacks of the board as it is now.
    pub fn board(&self) -> (r: [u32; WIDTH])
        ensures
            board_of(r@) == self@.board,
            r@ == self.data_words(),
            self.wf() ==> words_ok(r@),
    {
        self.data
    }

    /// The packed stacks of the board to reach.
    pub fn finish_state(&self) -> (r: [u32; WIDTH])
        ensures
            board_of(r@) == self@.goal,
            self.wf() ==> words_ok(r@),
    {
        self.finish_state
    }

    /// A line that shows the crane over its stack, two columns to a stack.
    pub fn print_crane(&self) -> (r: String)
        ensures
            r@ == crane_line(self@),
    {
        let mut data: String = String::from_str(" ");
        proof {
            reveal_strlit(" ");
            reveal_strlit("  ");
            assert(data@ =~= seq![' '] + Seq::new(0, |i: int| ' '));
        }
        let mut k: usize = 0;
        while k < self.dp
            invariant
                k <= self.dp,
                data@ == seq![' '] + Seq::new(2 * (k as nat), |i: int| ' '),
            decreases self.dp - k,
        {
            data.append("  ");
            proof {
                reveal_strlit("  ");
                assert(data@ =~= seq![' '] + Seq::new(2 * ((k + 1) as nat), |i: int| ' '));
            }
            k = k + 1;
        }
        data.append(self.crane.letter_str());
        data
    }

    /// The program as a text: each band's instructions up to its end, a
    /// comma and a blank after each band.
    pub fn print_inst(&self) -> (r: String)
        ensures
            r@ == program_text(self@.bands, 4),
    {
        let mut data: String = String::from_str(" ");
        proof {
            reveal_strlit(" ");
            reveal_strlit(", ");
            reveal_with_fuel(program_text, 1);
            assert(data@ =~= program_text(self@.bands, 0));
        }
        let mut row: usize = 0;
        while row < 4
            invariant
                row <= 4,
                data@ == program_text(self@.bands, row as nat),
            decreases 4 - row,
        {
            let w = self.instructions[row];
            let ghost head = data@;
            let mut i: u8 = 0;
            let mut more: bool = true;
            while more && i < 8
                invariant
                    i <= 8,
                    row < 4,
                    w == self@.bands[row as int],
                    !more ==> band_text(w, i as nat) == Seq::<char>::empty(),
                    data@ + band_text(w, i as nat) == head + band_text(w, 0),
                decreases (if more { 1int } else { 0int }), 8 - i,
            {
                match fetch(w, i) {
                    Instruction::NoInstruction => {
                        more = false;
                    },
                    Instruction::Real(guard, op) => {
                        if op == OpCode::Nop {
                            more = false;
                        } else {
                            let ghost before = data@;
                            data.append(guard.glyph_str());
                            data.append(op.glyph_str());
                            proof {
                                assert(data@ + band_text(w, (i + 1) as nat) =~= before + band_text(
                                    w,
                                    i as nat,
                                ));
                            }
                            i = i + 1;
                        }
                    },
                }
            }
            proof {
                assert(band_text(w, i as nat) =~= Seq::<char>::empty());
                assert(data@ =~= head + band_text(w, 0));
            }
            data.append(", ");
            proof {
                reveal_strlit(", ");
                assert(data@ =~= program_text(self@.bands, (row + 1) as nat));
            }
            row = row + 1;
        }
        data
    }

    /// The board as a text: six lines, the top slots first, each stack's
    /// slot after a bar, a bar at the end of each line.
    pub fn print_data(&self) -> (r: String)
        ensures
            r@ == rows_text(self@.board, 6),
    {
        let mut data: String = String::new();
        proof {
            reveal_strlit("|");
            reveal_strlit("|\n");
            assert(data@ =~= rows_text(self@.board, 0));
        }
        let mut done: u8 = 0;
        while done < 6
            invariant
                done <= 6,
                data@ == rows_text(self@.board, done as nat),
            decreases 6 - done,
        {
            let y: u8 = 5 - done;
            let ghost head = data@;
            let mut x: usize = 0;
            proof {
                assert(data@ =~= head + row_text(self@.board, y as int, 0));
            }
            while x < WIDTH
                invariant
                    x <= WIDTH,
                    y < 6,
                    data@ == head + row_text(self@.board, y as int, x as nat),
                decreases WIDTH - x,
            {
                let b = get_slot(self.data[x], y);
                data.append("|");
                data.append(b.glyph_str());
                proof {
                    reveal_strlit("|");
                    assert(self@.board[x as int] == stack_boxes(self.data@[x as int]));
                    assert(data@ =~= head + row_text(self@.board, y as int, (x + 1) as nat));
                }
                x = x + 1;
            }
            data.append("|\n");
            proof {
                reveal_strlit("|\n");
                assert(self@.board.len() == WIDTH);
                assert(data@ =~= rows_text(self@.board, (done + 1) as nat));
            }
            done = done + 1;
        }
        data
    }

    fn advance(&mut self)
        requires
            old(self).wf(),
            old(self).ip.1 < 8,
        ensures
            final(self).wf(),
            final(self)@ == old(self)@.advance(),
    {
        self.ip = (self.ip.0, self.ip.1 + 1);
    }

    fn do_return(&mut self) -> (fault: bool)
        requires
            old(self).wf(),
        ensures
            final(self).wf(),
            (final(self)@, fault) == old(self)@.ret(),
    {
        match self.stack.pop() {
            None => true,
            Some(p) => {
                self.ip = p;
                proof {
                    assert(old(self).stack@[old(self).stack@.len() - 1].0 < 4);
                    assert(final(self)@.calls =~= old(self)@.calls.drop_last());
                }
                false
            },
        }
    }

    fn call(&mut self, band: u8)
        requires
            old(self).wf(),
            band < 4,
        ensures
            final(self).wf(),
            final(self)@ == old(self)@.enter(band as nat),
    {
        self.stack.push(self.ip);
        self.ip = (band, 0);
        proof {
            assert(final(self)@.calls =~= old(self)@.calls.push(old(self)@.ip));
        }
    }

    fn actuate(&mut self) -> (fault: bool)
        requires
            old(self).wf(),
        ensures
            final(self).wf(),
            (final(self)@, fault) == old(self)@.actuate(),
    {
        if self.dp >= WIDTH {
            return false;
        }
        let w = self.data[self.dp];
        assert(stack_ok(w));
        if self.crane == Box::Empty {
            let (v, b) = pick_up(w);
            self.data[self.dp] = v;
            self.crane = b;
            proof {
                assert(final(self)@.board =~= old(self)@.board.update(
                    self.dp as int,
                    stack_boxes(v),
                ));
            }
            false
        } else {
            match put_down(w, self.crane) {
                None => true,
                Some(v) => {
                    self.data[self.dp] = v;
                    self.crane = Box::Empty;
                    proof {
                        assert(final(self)@.board =~= old(self)@.board.update(
                            self.dp as int,
                            stack_boxes(v),
                        ));
                    }
                    false
                },
            }
        }
    }

    /// The highest occupied slot of a packed stack.
    pub fn get_top(stack: u32) -> (r: Option<u8>)
        ensures
            match r {
                Some(t) => t < 6 && top_slot(stack) == Some(t as nat),
                None => top_slot(stack) == None::<nat>,
            },
    {
        get_top(stack)
    }

    /// The comparison that ends a step, made on the machine as it stands:
    /// `fault` tells whether the step's instruction met a fault.
    pub fn classify(&self, fault: bool) -> (r: StepState)
        requires
            self.wf(),
        ensures
            r == self@.classify(fault),
    {
        proof {
            lemma_boards_equal(self.data@, self.finish_state@);
        }
        if words_equal(&self.data, &self.finish_state) {
            StepState::Finished
        } else if fault || self.dp >= WIDTH {
            StepState::Crashed
        } else {
            StepState::Normal
        }
    }

    /// One step of the machine: the instruction under the instruction
    /// pointer runs if its guard admits what the crane holds, and the board
    /// is then compared with the goal.
    pub fn step(&mut self) -> (r: StepState)
        requires
            old(self).wf(),
        ensures
            final(self).wf(),
            final(self)@ == old(self)@.step().0,
            r == old(self)@.step().1,
    {
        let ins = fetch(self.instructions[self.ip.0 as usize], self.ip.1);
        let mut fault = false;
        match ins {
            Instruction::NoInstruction => {
                fault = self.do_return();
            },
            Instruction::Real(guard, op) => {
                if !guard.matches_box(self.crane) {
                    self.advance();
                } else {
                    match op {
                        OpCode::Nop => {
                            fault = self.do_return();
                        },
                        OpCode::Right => {
                            self.advance();
                            self.dp = if self.dp == usize::MAX {
                                0
                            } else {
                                self.dp + 1
                            };
                        },
                        OpCode::Left => {
                            self.advance();
                            self.dp = if self.dp == 0 {
                                usize::MAX
                            } else {
                                self.dp - 1
                            };
                        },
                        OpCode::Down => {
                            self.advance();
                            fault = self.actuate();
                        },
                        OpCode::Goto1 => {
                            self.call(0);
                        },
                        OpCode::Goto2 => {
                            self.call(1);
                        },
                        OpCode::Goto3 => {
                            self.call(2);
                        },
                        OpCode::Goto4 => {
                            self.call(3);
                        },
                    }
                }
            },
        }
        self.classify(fault)
    }

    /// One step for a caller that goes on while steps end normally:
    /// `Some(true)` after such a step, `None` after any other.
    pub fn next(&mut self) -> (r: Option<bool>)
        requires
            old(self).wf(),
        ensures
            final(self).wf(),
            final(self)@ == old(self)@.step().0,
            r == (if old(self)@.step().1 == StepState::Normal {
                Some(true)
            } else {
                None
            }),
    {
        match self.step() {
            StepState::Normal => Some(true),
            _ => None,
        }
    }

    /// Steps the machine until a step does not end normally, or gives up
    /// when the count of rounds reaches the limit.
    pub fn run_all(&mut self) -> (r: FinishState)
        requires
            old(self).wf(),
        ensures
            final(self).wf(),
            final(self)@ == old(self)@.run(0).0,
            r == old(self)@.run(0).1,
    {
        let mut num_rounds: u16 = 0;
        loop
            invariant
                self.wf(),
                num_rounds < ROUND_LIMIT,
                self@.run(num_rounds as nat) == old(self)@.run(0),
            decreases ROUND_LIMIT - num_rounds,
        {
            num_rounds = num_rounds + 1;
            if num_rounds == ROUND_LIMIT {
                return FinishState::Limited(num_rounds);
            }
            match self.step() {
                StepState::Normal => (),
                StepState::Crashed => {
                    return FinishState::Crashed(num_rounds);
                },
                StepState::Finished => {
                    return FinishState::Finished(num_rounds);
                },
            }
        }
    }

    /// Makes the machine as a run finds it: the start board, an empty crane
    /// over stack 0, the first slot of the first band, nothing saved.
    pub fn reset(&mut self)
        requires
            old(self).wf(),
        ensures
            final(self).wf(),
            final(self)@ == old(self)@.fresh(),
    {
        self.data = self.start;
        self.crane = Box::Empty;
        self.dp = 0;
        self.ip = (0, 0);
        self.stack.clear();
        proof {
            assert(final(self)@.calls =~= Seq::<(nat, nat)>::empty());
        }
    }

    /// Runs one candidate: `w` becomes the first band, and the machine runs
    /// from its fresh state.
    pub fn try_band(&mut self, w: u64) -> (r: FinishState)
        requires
            old(self).wf(),
        ensures
            final(self).wf(),
            final(self)@ == old(self)@.trial(w).0,
            r == old(self)@.trial(w).1,
    {
        self.instructions[0] = w;
        self.reset();
        self.run_all()
    }

    /// Looks for a first band that reaches the goal among the bands that use
    /// the first `slots` slots only, in rising order of their words. The
    /// other bands and the boards stay as they are. The machine is left as
    /// the last candidate's run left it.
    pub fn search(&mut self, slots: u8) -> (r: Option<u64>)
        requires
            old(self).wf(),
            slots <= 8,
        ensures
            final(self).wf(),
            first_solution(old(self)@, slots as nat, r),
            final(self)@ == old(self)@.trial(last_tried(slots as nat, r)).0,
    {
        let limit: u64 = candidate_count(slots);
        let first = self.try_band(0);
        proof {
            old(self)@.lemma_trial_keeps(0);
        }
        if let FinishState::Finished(_) = first {
            return Some(0);
        }
        let mut i: u64 = 1;
        while i < limit
            invariant
                self.wf(),
                1 <= i <= limit,
                limit == candidates(slots as nat),
                forall|v: u64| v < i ==> !old(self)@.solves(v),
                self@ == old(self)@.trial((i - 1) as u64).0,
                same_puzzle(self@, old(self)@),
            decreases limit - i,
        {
            let ghost before = self@;
            let r = self.try_band(i);
            proof {
                before.lemma_trial_keeps(i);
                lemma_same_trial(before, old(self)@, i);
            }
            if let FinishState::Finished(_) = r {
                return Some(i);
            }
            i = i + 1;
        }
        None
    }

    /// Looks for a first band that reaches the goal among all bands, in
    /// rising order of their words. The candidates are the words of eight
    /// slots: a word with bits above them runs as the candidate with the
    /// same slots does.
    pub fn brute_force(&mut self) -> (r: Option<u64>)
        requires
            old(self).wf(),
        ensures
            final(self).wf(),
            first_solution(old(self)@, 8, r),
            final(self)@ == old(self)@.trial(last_tried(8, r)).0,
    {
        self.search(8)
    }
}

/// The number of bands that use the first `slots` slots only.
pub open spec fn candidates(slots: nat) -> nat
    decreases slots,
{
    if slots == 0 {
        1
    } else {
        64 * candidates((slots - 1) as nat)
    }
}

/// What a search among the bands of `slots` slots owes: the least band
/// that reaches the goal, or none where no band of them reaches it.
pub open spec fn first_solution(m: Machine, slots: nat, r: Option<u64>) -> bool {
    match r {
        Some(w) => {
            &&& w < candidates(slots)
            &&& m.solves(w)
            &&& forall|v: u64| v < w ==> !m.solves(v)
        },
        None => forall|v: u64| v < candidates(slots) ==> !m.solves(v),
    }
}

/// The candidate that a search ran last: the band it found, or the last of
/// all where it found none.
pub open spec fn last_tried(slots: nat, r: Option<u64>) -> u64 {
    match r {
        Some(w) => w,
        None => (candidates(slots) - 1) as u64,
    }
}

/// There is always a candidate: the band without instructions.
pub proof fn lemma_candidates_positive(slots: nat)
    ensures
        candidates(slots) >= 1,
    decreases slots,
{
    if slots > 0 {
        lemma_candidates_positive((slots - 1) as nat);
    }
}

/// Computes the number of bands that use the first `slots` slots only.
pub fn candidate_count(slots: u8) -> (r: u64)
    requires
        slots <= 8,
    ensures
        r == candidates(slots as nat),
        1 <= r <= 0x1_0000_0000_0000,
{
    let mut r: u64 = 1;
    let mut k: u8 = 0;
    proof {
        reveal_with_fuel(candidates, 10);
    }
    while k < slots
        invariant
            k <= slots <= 8,
            r == candidates(k as nat),
            1 <= r,
            k == 0 ==> r == 1,
            k == 1 ==> r == 64,
            k == 2 ==> r == 0x1000,
            k == 3 ==> r == 0x4_0000,
            k == 4 ==> r == 0x100_0000,
            k == 5 ==> r == 0x4000_0000,
            k == 6 ==> r == 0x10_0000_0000,
            k == 7 ==> r == 0x400_0000_0000,
            k == 8 ==> r == 0x1_0000_0000_0000,
        decreases slots - k,
    {
        r = r * 64;
        k = k + 1;
    }
    r
}

/// A machine has been loaded with a puzzle: its bands pack the puzzle's
/// bands, its board and its start board are the puzzle's board, and it
/// stands at the start of a run.
pub open spec fn loaded(m: Machine, p: Puzzle) -> bool {
    &&& m.bands.len() == 4
    &&& forall|k: int| 0 <= k < 4 ==> packs(#[trigger] m.bands[k], band_or_empty(p.bands, k))
    &&& m.board == p.board
    &&& m.start == p.board
    &&& m.goal == p.goal
    &&& m.crane == Box::Empty
    &&& m.dp == 0
    &&& m.ip == (0nat, 0nat)
    &&& m.calls == Seq::<(nat, nat)>::empty()
}

/// The line that shows the crane: a blank, two blanks for each stack to the
/// left of the crane, and the letter of what the crane holds.
pub open spec fn crane_line(m: Machine) -> Seq<char> {
    seq![' '] + Seq::new(2 * m.dp, |i: int| ' ') + seq![m.crane.letter()]
}

/// The text of a band from slot `from` on: guard and action of each
/// instruction, up to the first slot without an action.
pub open spec fn band_text(w: u64, from: nat) -> Seq<char>
    decreases 8 - from,
{
    if from >= 8 {
        Seq::empty()
    } else {
        match instruction_at(w, from) {
            Instruction::NoInstruction => Seq::empty(),
            Instruction::Real(guard, op) => if op == OpCode::Nop {
                Seq::empty()
            } else {
                seq![guard.glyph(), op.glyph()] + band_text(w, from + 1)
            },
        }
    }
}

/// The text of the first `n` bands, after a leading blank.
pub open spec fn program_text(bands: Seq<u64>, n: nat) -> Seq<char>
    decreases n,
{
    if n == 0 {
        seq![' ']
    } else {
        program_text(bands, (n - 1) as nat) + band_text(bands[n - 1], 0) + seq![',', ' ']
    }
}

/// Slot `y` of the first `n` stacks of a board, a bar before each.
pub open spec fn row_text(board: Seq<Seq<Box>>, y: int, n: nat) -> Seq<char>
    decreases n,
{
    if n == 0 {
        Seq::empty()
    } else {
        row_text(board, y, (n - 1) as nat) + seq!['|', board[n - 1][y].glyph()]
    }
}

/// The first `n` lines of a drawn board, the line of the top slots first.
pub open spec fn rows_text(board: Seq<Seq<Box>>, n: nat) -> Seq<char>
    decreases n,
{
    if n == 0 {
        Seq::empty()
    } else {
        rows_text(board, (n - 1) as nat) + row_text(board, 6 - n, board.len()) + seq!['|', '\n']
    }
}

} // verus!
