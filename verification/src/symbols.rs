//! The alphabets of the machine: box colours, guards and actions, with the
//! codes and the characters that stand for them.

use vstd::prelude::*;

verus! {

/// A box colour, or the absence of a box.
#[derive(Clone, Copy, PartialEq, Eq, Structural, Debug)]
pub enum Box {
    Empty,
    Blue,
    Green,
    Red,
    Yellow,
}

/// The guard of an instruction, tested against what the crane holds.
#[derive(Clone, Copy, PartialEq, Eq, Structural, Debug)]
pub enum IfColor {
    /// The mark of a slot that holds no instruction.
    Nop,
    Always,
    Blue,
    Green,
    Red,
    Yellow,
    /// The crane holds a box of any colour.
    Any,
    /// The crane holds nothing.
    Empty,
}

/// The action of an instruction.
#[derive(Clone, Copy, PartialEq, Eq, Structural, Debug)]
pub enum OpCode {
    /// No action: the band ends here.
    Nop,
    Right,
    Left,
    Down,
    Goto1,
    Goto2,
    Goto3,
    Goto4,
}

/// What one slot of a band holds.
#[derive(Clone, Copy, PartialEq, Eq, Structural, Debug)]
pub enum Instruction {
    NoInstruction,
    Real(IfColor, OpCode),
}

impl Box {
    /// The three-bit code that stands for this box in a packed stack.
    pub open spec fn code(self) -> u32 {
        match self {
            Box::Empty => 0,
            Box::Blue => 1,
            Box::Green => 2,
            Box::Red => 3,
            Box::Yellow => 4,
        }
    }

    /// The box that a code stands for; codes that stand for none give `Empty`.
    pub open spec fn of_code(c: u32) -> Box {
        if c == 1 {
            Box::Blue
        } else if c == 2 {
            Box::Green
        } else if c == 3 {
            Box::Red
        } else if c == 4 {
            Box::Yellow
        } else {
            Box::Empty
        }
    }

    /// The box that a character of a board text stands for.
    pub open spec fn of_char(c: char) -> Option<Box> {
        if c == 'n' {
            Some(Box::Empty)
        } else if c == 'b' {
            Some(Box::Blue)
        } else if c == 'g' {
            Some(Box::Green)
        } else if c == 'r' {
            Some(Box::Red)
        } else if c == 'y' {
            Some(Box::Yellow)
        } else {
            None
        }
    }

    /// The character that shows this box on a drawn board.
    pub open spec fn glyph(self) -> char {
        match self {
            Box::Empty => ' ',
            Box::Blue => 'b',
            Box::Green => 'g',
            Box::Red => 'r',
            Box::Yellow => 'y',
        }
    }

    /// The character that names this box where the crane is drawn.
    pub open spec fn letter(self) -> char {
        match self {
            Box::Empty => 'n',
            Box::Blue => 'b',
            Box::Green => 'g',
            Box::Red => 'r',
            Box::Yellow => 'y',
        }
    }

    /// The code of this box.
    pub fn to_code(self) -> (r: u32)
        ensures
            r == self.code(),
            r <= 4,
            Box::of_code(r) == self,
    {
        match self {
            Box::Empty => 0,
            Box::Blue => 1,
            Box::Green => 2,
            Box::Red => 3,
            Box::Yellow => 4,
        }
    }

    /// The box that a code stands for.
    pub fn from_code(c: u32) -> (r: Box)
        ensures
            r == Box::of_code(c),
    {
        if c == 1 {
            Box::Blue
        } else if c == 2 {
            Box::Green
        } else if c == 3 {
            Box::Red
        } else if c == 4 {
            Box::Yellow
        } else {
            Box::Empty
        }
    }

    /// The box that a character of a board text stands for.
    pub fn from_char(c: char) -> (r: Option<Box>)
        ensures
            r == Box::of_char(c),
    {
        if c == 'n' {
            Some(Box::Empty)
        } else if c == 'b' {
            Some(Box::Blue)
        } else if c == 'g' {
            Some(Box::Green)
        } else if c == 'r' {
            Some(Box::Red)
        } else if c == 'y' {
            Some(Box::Yellow)
        } else {
            None
        }
    }

    /// The one-character text that shows this box on a drawn board.
    pub fn glyph_str(self) -> (r: &'static str)
        ensures
            r@ == seq![self.glyph()],
    {
        proof {
            reveal_strlit(" ");
            reveal_strlit("b");
            reveal_strlit("g");
            reveal_strlit("r");
            reveal_strlit("y");
        }
        let r = match self {
            Box::Empty => " ",
            Box::Blue => "b",
            Box::Green => "g",
            Box::Red => "r",
            Box::Yellow => "y",
        };
        assert(r@ =~= seq![self.glyph()]);
        r
    }

    /// The one-character text that names this box where the crane is drawn.
    pub fn letter_str(self) -> (r: &'static str)
        ensures
            r@ == seq![self.letter()],
    {
        proof {
            reveal_strlit("n");
            reveal_strlit("b");
            reveal_strlit("g");
            reveal_strlit("r");
            reveal_strlit("y");
        }
        let r = match self {
            Box::Empty => "n",
            Box::Blue => "b",
            Box::Green => "g",
            Box::Red => "r",
            Box::Yellow => "y",
        };
        assert(r@ =~= seq![self.letter()]);
        r
    }
}

impl Default for Box {
    fn default() -> (r: Box)
        ensures
            r == Box::Empty,
    {
        Box::Empty
    }
}

impl IfColor {
    /// The three-bit tag that stands for this guard in a packed instruction.
    pub open spec fn tag(self) -> u64 {
        match self {
            IfColor::Nop => 0,
            IfColor::Always => 1,
            IfColor::Blue => 2,
            IfColor::Green => 3,
            IfColor::Red => 4,
            IfColor::Yellow => 5,
            IfColor::Any => 6,
            IfColor::Empty => 7,
        }
    }

    /// The guard that a tag stands for; tag 0 is the mark of an empty slot.
    pub open spec fn of_tag(t: u64) -> IfColor {
        if t == 1 {
            IfColor::Always
        } else if t == 2 {
            IfColor::Blue
        } else if t == 3 {
            IfColor::Green
        } else if t == 4 {
            IfColor::Red
        } else if t == 5 {
            IfColor::Yellow
        } else if t == 6 {
            IfColor::Any
        } else if t == 7 {
            IfColor::Empty
        } else {
            IfColor::Nop
        }
    }

    /// The guard that a character of a program text stands for.
    pub open spec fn of_char(c: char) -> Option<IfColor> {
        if c == 'q' {
            Some(IfColor::Always)
        } else if c == 'a' {
            Some(IfColor::Any)
        } else if c == 'b' {
            Some(IfColor::Blue)
        } else if c == 'g' {
            Some(IfColor::Green)
        } else if c == 'y' {
            Some(IfColor::Yellow)
        } else if c == 'r' {
            Some(IfColor::Red)
        } else if c == 'n' {
            Some(IfColor::Empty)
        } else {
            None
        }
    }

    /// Whether an instruction under this guard runs while the crane holds `held`.
    pub open spec fn admits(self, held: Box) -> bool {
        match self {
            IfColor::Nop => true,
            IfColor::Always => true,
            IfColor::Blue => held == Box::Blue,
            IfColor::Green => held == Box::Green,
            IfColor::Red => held == Box::Red,
            IfColor::Yellow => held == Box::Yellow,
            IfColor::Any => held != Box::Empty,
            IfColor::Empty => held == Box::Empty,
        }
    }

    /// The character that shows this guard in a drawn program.
    pub open spec fn glyph(self) -> char {
        match self {
            IfColor::Nop => 'q',
            IfColor::Always => 'q',
            IfColor::Blue => 'b',
            IfColor::Green => 'g',
            IfColor::Red => 'r',
            IfColor::Yellow => 'y',
            IfColor::Any => 'a',
            IfColor::Empty => 'n',
        }
    }

    /// The tag of this guard.
    pub fn to_tag(self) -> (r: u64)
        ensures
            r == self.tag(),
            r <= 7,
            IfColor::of_tag(r) == self,
    {
        match self {
            IfColor::Nop => 0,
            IfColor::Always => 1,
            IfColor::Blue => 2,
            IfColor::Green => 3,
            IfColor::Red => 4,
            IfColor::Yellow => 5,
            IfColor::Any => 6,
            IfColor::Empty => 7,
        }
    }

    /// The guard that a tag stands for.
    pub fn from_tag(t: u64) -> (r: IfColor)
        ensures
            r == IfColor::of_tag(t),
    {
        if t == 1 {
            IfColor::Always
        } else if t == 2 {
            IfColor::Blue
        } else if t == 3 {
            IfColor::Green
        } else if t == 4 {
            IfColor::Red
        } else if t == 5 {
            IfColor::Yellow
        } else if t == 6 {
            IfColor::Any
        } else if t == 7 {
            IfColor::Empty
        } else {
            IfColor::Nop
        }
    }

    /// The guard that a character of a program text stands for.
    pub fn from_char(c: char) -> (r: Option<IfColor>)
        ensures
            r == IfColor::of_char(c),
    {
        if c == 'q' {
            Some(IfColor::Always)
        } else if c == 'a' {
            Some(IfColor::Any)
        } else if c == 'b' {
            Some(IfColor::Blue)
        } else if c == 'g' {
            Some(IfColor::Green)
        } else if c == 'y' {
            Some(IfColor::Yellow)
        } else if c == 'r' {
            Some(IfColor::Red)
        } else if c == 'n' {
            Some(IfColor::Empty)
        } else {
            None
        }
    }

    /// Tests the guard against what the crane holds.
    pub fn matches_box(self, held: Box) -> (r: bool)
        ensures
            r == self.admits(held),
    {
        match self {
            IfColor::Nop => true,
            IfColor::Always => true,
            IfColor::Blue => held == Box::Blue,
            IfColor::Green => held == Box::Green,
            IfColor::Red => held == Box::Red,
            IfColor::Yellow => held == Box::Yellow,
            IfColor::Any => held != Box::Empty,
            IfColor::Empty => held == Box::Empty,
        }
    }

    /// The one-character text that shows this guard in a drawn program.
    pub fn glyph_str(self) -> (r: &'static str)
        ensures
            r@ == seq![self.glyph()],
    {
        proof {
            reveal_strlit("q");
            reveal_strlit("b");
            reveal_strlit("g");
            reveal_strlit("r");
            reveal_strlit("y");
            reveal_strlit("a");
            reveal_strlit("n");
        }
        let r = match self {
            IfColor::Nop => "q",
            IfColor::Always => "q",
            IfColor::Blue => "b",
            IfColor::Green => "g",
            IfColor::Red => "r",
            IfColor::Yellow => "y",
            IfColor::Any => "a",
            IfColor::Empty => "n",
        };
        assert(r@ =~= seq![self.glyph()]);
        r
    }
}

impl OpCode {
    /// The three-bit code that stands for this action in a packed instruction.
    pub open spec fn code(self) -> u64 {
        match self {
            OpCode::Nop => 0,
            OpCode::Right => 1,
            OpCode::Left => 2,
            OpCode::Down => 3,
            OpCode::Goto1 => 4,
            OpCode::Goto2 => 5,
            OpCode::Goto3 => 6,
            OpCode::Goto4 => 7,
        }
    }

    /// The action that a code stands for.
    pub open spec fn of_code(c: u64) -> OpCode {
        if c == 1 {
            OpCode::Right
        } else if c == 2 {
            OpCode::Left
        } else if c == 3 {
            OpCode::Down
        } else if c == 4 {
            OpCode::Goto1
        } else if c == 5 {
            OpCode::Goto2
        } else if c == 6 {
            OpCode::Goto3
        } else if c == 7 {
            OpCode::Goto4
        } else {
            OpCode::Nop
        }
    }

    /// The action that a character of a program text stands for.
    pub open spec fn of_char(c: char) -> Option<OpCode> {
        if c == '>' {
            Some(OpCode::Right)
        } else if c == '<' {
            Some(OpCode::Left)
        } else if c == '.' {
            Some(OpCode::Down)
        } else if c == '1' {
            Some(OpCode::Goto1)
        } else if c == '2' {
            Some(OpCode::Goto2)
        } else if c == '3' {
            Some(OpCode::Goto3)
        } else if c == '4' {
            Some(OpCode::Goto4)
        } else {
            None
        }
    }

    /// The character that shows this action in a drawn program.
    pub open spec fn glyph(self) -> char {
        match self {
            OpCode::Nop => ' ',
            OpCode::Right => '>',
            OpCode::Left => '<',
            OpCode::Down => '.',
            OpCode::Goto1 => '1',
            OpCode::Goto2 => '2',
            OpCode::Goto3 => '3',
            OpCode::Goto4 => '4',
        }
    }

    /// The band that a call enters, if this action is a call.
    pub open spec fn target(self) -> Option<nat> {
        match self {
            OpCode::Goto1 => Some(0),
            OpCode::Goto2 => Some(1),
            OpCode::Goto3 => Some(2),
            OpCode::Goto4 => Some(3),
            _ => None,
        }
    }

    /// The code of this action.
    pub fn to_code(self) -> (r: u64)
        ensures
            r == self.code(),
            r <= 7,
            OpCode::of_code(r) == self,
    {
        match self {
            OpCode::Nop => 0,
            OpCode::Right => 1,
            OpCode::Left => 2,
            OpCode::Down => 3,
            OpCode::Goto1 => 4,
            OpCode::Goto2 => 5,
            OpCode::Goto3 => 6,
            OpCode::Goto4 => 7,
        }
    }

    /// The action that a code stands for.
    pub fn from_code(c: u64) -> (r: OpCode)
        ensures
            r == OpCode::of_code(c),
    {
        if c == 1 {
            OpCode::Right
        } else if c == 2 {
            OpCode::Left
        } else if c == 3 {
            OpCode::Down
        } else if c == 4 {
            OpCode::Goto1
        } else if c == 5 {
            OpCode::Goto2
        } else if c == 6 {
            OpCode::Goto3
        } else if c == 7 {
            OpCode::Goto4
        } else {
            OpCode::Nop
        }
    }

    /// The action that a character of a program text stands for.
    pub fn from_char(c: char) -> (r: Option<OpCode>)
        ensures
            r == OpCode::of_char(c),
    {
        if c == '>' {
            Some(OpCode::Right)
        } else if c == '<' {
            Some(OpCode::Left)
        } else if c == '.' {
            Some(OpCode::Down)
        } else if c == '1' {
            Some(OpCode::Goto1)
        } else if c == '2' {
            Some(OpCode::Goto2)
        } else if c == '3' {
            Some(OpCode::Goto3)
        } else if c == '4' {
            Some(OpCode::Goto4)
        } else {
            None
        }
    }

    /// The one-character text that shows this action in a drawn program.
    pub fn glyph_str(self) -> (r: &'static str)
        ensures
            r@ == seq![self.glyph()],
    {
        proof {
            reveal_strlit(" ");
            reveal_strlit(">");
            reveal_strlit("<");
            reveal_strlit(".");
            reveal_strlit("1");
            reveal_strlit("2");
            reveal_strlit("3");
            reveal_strlit("4");
        }
        let r = match self {
            OpCode::Nop => " ",
            OpCode::Right => ">",
            OpCode::Left => "<",
            OpCode::Down => ".",
            OpCode::Goto1 => "1",
            OpCode::Goto2 => "2",
            OpCode::Goto3 => "3",
            OpCode::Goto4 => "4",
        };
        assert(r@ =~= seq![self.glyph()]);
        r
    }
}

} // verus!
