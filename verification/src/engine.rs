//! The bytecode that the code generator emits and the evaluator executes.

pub mod codegen;
pub mod evaluator;
pub mod parser;

use vstd::prelude::*;

verus! {

/// One bytecode instruction.
///
/// `Nop` is a placeholder that the code generator overwrites while resolving
/// jump targets; it never remains in a finished program.
#[derive(Clone, Copy, Debug, PartialEq, Eq)]
pub enum Instruction {
    Char(char),
    AnyChar,
    Start,
    IsHead,
    IsTail,
    Match,
    Jump(usize),
    Split(usize, usize),
    Nop,
}

/// A finished bytecode program: the instruction at the highest address is
/// `Match`, every jump target is in bounds, and no `Nop` placeholder remains.
pub open spec fn code_wf(code: Seq<Instruction>) -> bool {
    &&& code.len() > 0
    &&& code[code.len() - 1] is Match
    &&& forall|i: int|
        0 <= i < code.len() ==> match #[trigger] code[i] {
            Instruction::Jump(t) => t < code.len(),
            Instruction::Split(a, b) => a < code.len() && b < code.len(),
            Instruction::Nop => false,
            _ => true,
        }
}

/// A compiled program as the generator produces it: well formed, it opens
/// with the four-instruction unanchored-search preamble, and every jump
/// target of the pattern body stays inside the body or on the final `Match`.
///
/// The preamble reads: at the current offset, first try the body (the
/// `Start` marker at address 3); if that whole attempt fails, consume one
/// character and retry from address 0.
pub open spec fn code_with_preamble(code: Seq<Instruction>) -> bool {
    &&& code_wf(code)
    &&& code.len() >= 5
    &&& code[0] == Instruction::Split(3, 1)
    &&& code[1] == Instruction::AnyChar
    &&& code[2] == Instruction::Jump(0)
    &&& code[3] == Instruction::Start
    &&& forall|i: int|
        4 <= i < code.len() ==> match #[trigger] code[i] {
            Instruction::Jump(t) => t >= 4,
            Instruction::Split(a, b) => a >= 4 && b >= 4,
            _ => true,
        }
}

/// An ordered, immutable sequence of instructions, built once per pattern by
/// the code generator and read-only thereafter.
#[derive(Debug, PartialEq)]
pub struct Code(Vec<Instruction>);

impl View for Code {
    type V = Seq<Instruction>;

    closed spec fn view(&self) -> Seq<Instruction> {
        self.0@
    }
}

impl Code {
    /// The instructions of the program, in execution order.
    pub fn instractions(&self) -> (r: &Vec<Instruction>)
        ensures
            r@ == self@,
    {
        &self.0
    }

    /// Wraps a finished instruction sequence; only the code generator builds one.
    pub(crate) fn new(instructions: Vec<Instruction>) -> (r: Code)
        ensures
            r@ == instructions@,
    {
        Code(instructions)
    }
}

} // verus!
