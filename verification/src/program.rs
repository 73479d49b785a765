//! The instruction set and the jump-resolved program it forms.

use vstd::prelude::*;

verus! {

/// One unit of a resolved program.
///
/// Jump targets are instruction indices into the flat sequence, computed
/// once at parse time, so that a jump at run time is a single index
/// reassignment.
#[derive(Debug, Clone, Copy, PartialEq, Eq, Structural)]
pub enum Instruction {
    /// Net data-pointer displacement collapsed from one run of
    /// consecutive move characters.
    MoveRef(i64),
    /// Net cell change collapsed from one run of consecutive
    /// increment/decrement characters.
    AddCell(i64),
    /// Emit the current cell's byte.
    Output,
    /// Read one byte into the current cell.
    Input,
    /// Loop open; the target is the index of the matching loop close.
    JumpIfZero(usize),
    /// Loop close; the target is the index of the matching loop open.
    JumpIfNonZero(usize),
}

/// Whether the jump at index `i` of `p`, if any, points at its matching
/// partner, which points back at it.
pub open spec fn jump_ok(p: Seq<Instruction>, i: int) -> bool {
    match p[i] {
        Instruction::JumpIfZero(t) => i < t < p.len() && p[t as int] == Instruction::JumpIfNonZero(
            i as usize,
        ),
        Instruction::JumpIfNonZero(t) => t < i && p[t as int] == Instruction::JumpIfZero(
            i as usize,
        ),
        _ => true,
    }
}

/// Brackets are fully balanced: every jump carries the index of its
/// matching partner, and the partner points back.
pub open spec fn matched_jumps(p: Seq<Instruction>) -> bool {
    forall|i: int| 0 <= i < p.len() ==> #[trigger] jump_ok(p, i)
}

/// An immutable, ordered, 0-indexed instruction sequence.
///
/// A `Program` produced by parsing satisfies `wf`: its jump targets are
/// mutually consistent. That invariant is established once, at parse
/// time, and never revisited at run time.
#[derive(Debug, PartialEq, Eq)]
pub struct Program {
    pub instructions: Vec<Instruction>,
}

impl View for Program {
    type V = Seq<Instruction>;

    open spec fn view(&self) -> Seq<Instruction> {
        self.instructions@
    }
}

impl Program {
    /// The parse-time invariant: brackets are balanced and pre-resolved.
    pub open spec fn wf(&self) -> bool {
        matched_jumps(self@)
    }

    /// How many instructions the program holds.
    pub fn len(&self) -> (n: usize)
        ensures
            n == self@.len(),
    {
        self.instructions.len()
    }
}

} // verus!
