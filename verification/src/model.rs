//! The machine as a mathematical value, and what one step, one run and one
//! trial of a candidate band do to it.

use crate::program::instruction_at;
use crate::stack::put_top;
use crate::stack::settled;
use crate::stack::take_top;
use crate::stack::top_index;
use crate::symbols::Box;
use crate::symbols::Instruction;
use crate::symbols::OpCode;
use vstd::prelude::*;

verus! {

/// How one step ended.
#[derive(Clone, Copy, PartialEq, Eq, Structural, Debug)]
pub enum StepState {
    Normal,
    Crashed,
    Finished,
}

/// How a run ended, with the number of rounds counted.
#[derive(Clone, Copy, PartialEq, Eq, Structural, Debug)]
pub enum FinishState {
    Crashed(u16),
    Finished(u16),
    Limited(u16),
}

/// The round at which a run is given up.
pub const ROUND_LIMIT: u16 = 100;

/// The data pointer after a move to the right. It leaves the board past the
/// last stack; from the far end of its range it comes round to 0.
pub open spec fn dp_right(dp: nat) -> nat {
    if dp >= usize::MAX {
        0
    } else {
        dp + 1
    }
}

/// The data pointer after a move to the left. From stack 0 it goes to the
/// far end of its range, which no board reaches.
pub open spec fn dp_left(dp: nat) -> nat {
    if dp == 0 {
        usize::MAX as nat
    } else {
        (dp - 1) as nat
    }
}

/// The state of the machine.
pub struct Machine {
    /// The four packed bands of the program.
    pub bands: Seq<u64>,
    /// The board to reach.
    pub goal: Seq<Seq<Box>>,
    /// The board that every run starts from.
    pub start: Seq<Seq<Box>>,
    /// The board as it is now, each stack with its six slots.
    pub board: Seq<Seq<Box>>,
    /// What the crane holds.
    pub crane: Box,
    /// The stack that the crane hovers over.
    pub dp: nat,
    /// The band and the slot of the next instruction.
    pub ip: (nat, nat),
    /// The saved instruction pointers, the latest last.
    pub calls: Seq<(nat, nat)>,
}

impl Machine {
    /// Four bands; three boards of one width, every stack settled; pointers
    /// that name bands.
    pub open spec fn wf(self) -> bool {
        &&& self.bands.len() == 4
        &&& self.board.len() <= usize::MAX
        &&& self.goal.len() == self.board.len()
        &&& self.start.len() == self.board.len()
        &&& forall|i: int| 0 <= i < self.board.len() ==> settled(#[trigger] self.board[i])
        &&& forall|i: int| 0 <= i < self.goal.len() ==> settled(#[trigger] self.goal[i])
        &&& forall|i: int| 0 <= i < self.start.len() ==> settled(#[trigger] self.start[i])
        &&& self.dp <= usize::MAX
        &&& self.ip.0 < 4
        &&& forall|k: int| 0 <= k < self.calls.len() ==> (#[trigger] self.calls[k]).0 < 4
    }

    /// The instruction under the instruction pointer.
    pub open spec fn current(self) -> Instruction {
        instruction_at(self.bands[self.ip.0 as int], self.ip.1)
    }

    /// The instruction pointer moves on by one slot.
    pub open spec fn advance(self) -> Machine {
        Machine { ip: (self.ip.0, self.ip.1 + 1), ..self }
    }

    /// The end of a band: the latest saved instruction pointer is taken up
    /// again. With none saved nothing changes and the fault is reported.
    pub open spec fn ret(self) -> (Machine, bool) {
        if self.calls.len() == 0 {
            (self, true)
        } else {
            (Machine { ip: self.calls.last(), calls: self.calls.drop_last(), ..self }, false)
        }
    }

    /// A call: the instruction pointer is saved as it stands and set to the
    /// first slot of `band`.
    pub open spec fn enter(self, band: nat) -> Machine {
        Machine { calls: self.calls.push(self.ip), ip: (band, 0), ..self }
    }

    /// The crane goes down. Empty, it takes the top box of the stack below,
    /// if there is one. Holding a box, it puts the box on top of the stack;
    /// on a full stack nothing changes and the fault is reported. Off the
    /// board nothing changes.
    pub open spec fn actuate(self) -> (Machine, bool) {
        if self.dp >= self.board.len() {
            (self, false)
        } else {
            let s = self.board[self.dp as int];
            if self.crane == Box::Empty {
                let (rest, taken) = take_top(s);
                (Machine { crane: taken, board: self.board.update(self.dp as int, rest), ..self }, false)
            } else {
                match put_top(s, self.crane) {
                    None => (self, true),
                    Some(more) => (
                        Machine {
                            crane: Box::Empty,
                            board: self.board.update(self.dp as int, more),
                            ..self
                        },
                        false,
                    ),
                }
            }
        }
    }

    /// The action that the next step performs: that of the instruction under
    /// the instruction pointer, if there is one and its guard admits what
    /// the crane holds.
    pub open spec fn admitted(self) -> Option<OpCode> {
        match self.current() {
            Instruction::NoInstruction => None,
            Instruction::Real(guard, op) => if guard.admits(self.crane) {
                Some(op)
            } else {
                None
            },
        }
    }

    /// The next step takes a box from the board or puts one on it.
    pub open spec fn moves_box(self) -> bool {
        &&& self.admitted() == Some(OpCode::Down)
        &&& self.on_board()
        &&& if self.crane == Box::Empty {
            top_index(self.board[self.dp as int]) is Some
        } else {
            put_top(self.board[self.dp as int], self.crane) is Some
        }
    }

    /// The machine after the instruction under the instruction pointer, and
    /// whether that instruction met a fault.
    pub open spec fn act(self) -> (Machine, bool) {
        match self.current() {
            Instruction::NoInstruction => self.ret(),
            Instruction::Real(guard, op) => {
                if !guard.admits(self.crane) {
                    (self.advance(), false)
                } else {
                    match op {
                        OpCode::Nop => self.ret(),
                        OpCode::Right => (
                            Machine { dp: dp_right(self.dp), ..self.advance() },
                            false,
                        ),
                        OpCode::Left => (Machine { dp: dp_left(self.dp), ..self.advance() }, false),
                        OpCode::Down => self.advance().actuate(),
                        OpCode::Goto1 => (self.enter(0), false),
                        OpCode::Goto2 => (self.enter(1), false),
                        OpCode::Goto3 => (self.enter(2), false),
                        OpCode::Goto4 => (self.enter(3), false),
                    }
                }
            },
        }
    }

    /// The crane hovers over a stack of the board.
    pub open spec fn on_board(self) -> bool {
        self.dp < self.board.len()
    }

    /// The comparison that ends every step: a board equal to the goal has
    /// finished, whatever else holds; otherwise a fault, or a crane off the
    /// board, has crashed.
    pub open spec fn classify(self, fault: bool) -> StepState {
        if self.board == self.goal {
            StepState::Finished
        } else if fault || !self.on_board() {
            StepState::Crashed
        } else {
            StepState::Normal
        }
    }

    /// One step: the instruction, then the comparison.
    pub open spec fn step(self) -> (Machine, StepState) {
        let (m, fault) = self.act();
        (m, m.classify(fault))
    }

    /// A run that has counted `round` rounds so far: it counts one more,
    /// gives up at the limit, and otherwise steps and goes on while the step
    /// ends normally.
    pub open spec fn run(self, round: nat) -> (Machine, FinishState)
        decreases ROUND_LIMIT - round,
    {
        let n = round + 1;
        if n >= ROUND_LIMIT {
            (self, FinishState::Limited(ROUND_LIMIT))
        } else {
            let (m, st) = self.step();
            match st {
                StepState::Normal => m.run(n),
                StepState::Crashed => (m, FinishState::Crashed(n as u16)),
                StepState::Finished => (m, FinishState::Finished(n as u16)),
            }
        }
    }

    /// The machine as a run finds it: the start board, an empty crane over
    /// stack 0, the first slot of the first band, nothing saved.
    pub open spec fn fresh(self) -> Machine {
        Machine {
            board: self.start,
            crane: Box::Empty,
            dp: 0,
            ip: (0, 0),
            calls: Seq::empty(),
            ..self
        }
    }

    /// The machine with `w` as its first band.
    pub open spec fn with_first_band(self, w: u64) -> Machine {
        Machine { bands: self.bands.update(0, w), ..self }
    }

    /// The run of a candidate: `w` as the first band, from a fresh machine.
    pub open spec fn trial(self, w: u64) -> (Machine, FinishState) {
        self.with_first_band(w).fresh().run(0)
    }

    /// The candidate `w` reaches the goal.
    pub open spec fn solves(self, w: u64) -> bool {
        self.trial(w).1 is Finished
    }
}

/// Two machines have the same puzzle: the same bands but for the first, the
/// same goal and the same start board.
pub open spec fn same_puzzle(a: Machine, b: Machine) -> bool {
    &&& a.bands.len() == 4
    &&& b.bands.len() == 4
    &&& forall|k: int| 1 <= k < 4 ==> a.bands[k] == b.bands[k]
    &&& a.goal == b.goal
    &&& a.start == b.start
}

/// Machines with the same puzzle run a candidate alike.
pub proof fn lemma_same_trial(a: Machine, b: Machine, w: u64)
    requires
        same_puzzle(a, b),
    ensures
        a.trial(w) == b.trial(w),
{
    assert(a.bands.update(0, w) =~= b.bands.update(0, w));
}

impl Machine {
    /// A step changes neither the program nor the goal nor the start board.
    pub proof fn lemma_step_keeps(self)
        ensures
            self.step().0.bands == self.bands,
            self.step().0.goal == self.goal,
            self.step().0.start == self.start,
    {
    }

    /// A run changes neither the program nor the goal nor the start board.
    pub proof fn lemma_run_keeps(self, round: nat)
        ensures
            self.run(round).0.bands == self.bands,
            self.run(round).0.goal == self.goal,
            self.run(round).0.start == self.start,
        decreases ROUND_LIMIT - round,
    {
        if round + 1 < ROUND_LIMIT {
            self.lemma_step_keeps();
            let (m, st) = self.step();
            if st == StepState::Normal {
                m.lemma_run_keeps(round + 1);
            }
        }
    }

    /// The run of a candidate leaves the puzzle as it was.
    pub proof fn lemma_trial_keeps(self, w: u64)
        requires
            self.bands.len() == 4,
        ensures
            same_puzzle(self.trial(w).0, self),
    {
        self.with_first_band(w).fresh().lemma_run_keeps(0);
    }
}

} // verus!
