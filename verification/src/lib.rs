//! An interpreter for a minimal eight-command tape-machine language.
//!
//! The library is split in two phases: a parser that turns source text
//! into a flat, jump-resolved instruction sequence, and an executor that
//! runs that sequence against a sparse, unbounded byte memory.

pub mod machine;
pub mod parser;
pub mod program;
pub mod report;

pub use machine::{execute, Machine, StepOutcome};
pub use parser::parse;
pub use program::{Instruction, Program};
pub use report::format_error_source;

use vstd::prelude::*;

verus! {

/// A parse or runtime failure of the interpreter.
///
/// The two parse errors carry a byte offset into the source, so a caller
/// can point at the exact failing character.
#[derive(Debug, Clone, Copy, PartialEq, Eq, Structural)]
pub enum Error {
    /// A loop-open with no matching loop-close; the offset is that of the
    /// outermost unmatched loop-open.
    UnclosedLB(usize),
    /// A loop-close with no matching loop-open; the offset is that of the
    /// close character itself.
    UnclosedRB(usize),
    /// A pointer move would take the data pointer below zero.
    NegDP,
}

} // verus!
