//! The parser: one left-to-right pass over the source bytes, collapsing
//! runs of move and cell-change characters, resolving bracket pairs
//! through an explicit stack, and ignoring every other byte.

use vstd::prelude::*;
use vstd::string::StringSliceAdditionalSpecFns;
use crate::program::{Instruction, Program, jump_ok};
use crate::Error;

verus! {

/// The eight command characters, as bytes: `>` `<` `+` `-` `.` `,` `[` `]`.
pub const FORWARD: u8 = 62;

pub const BACKWARD: u8 = 60;

pub const INCREMENT: u8 = 43;

pub const DECREMENT: u8 = 45;

pub const WRITE_OUT: u8 = 46;

pub const READ_IN: u8 = 44;

pub const LOOP_OPEN: u8 = 91;

pub const LOOP_CLOSE: u8 = 93;

/// The two pointer-move command characters, `>` and `<`.
pub open spec fn is_move(b: u8) -> bool {
    b == FORWARD || b == BACKWARD
}

/// The two cell-change command characters, `+` and `-`.
pub open spec fn is_add(b: u8) -> bool {
    b == INCREMENT || b == DECREMENT
}

/// The contribution of one move character: `>` is +1, `<` is -1.
pub open spec fn move_sign(b: u8) -> int {
    if b == FORWARD {
        1
    } else {
        -1
    }
}

/// The contribution of one cell-change character: `+` is +1, `-` is -1.
pub open spec fn add_sign(b: u8) -> int {
    if b == INCREMENT {
        1
    } else {
        -1
    }
}

/// The parser's whole state after some prefix of the source: the
/// instructions built so far, the stack of still-open loops (the index
/// of each placeholder instruction, with the source offset of its `[`,
/// bottom first), and the error that stopped the scan, if one did.
pub ghost struct PState {
    pub toks: Seq<Instruction>,
    pub stack: Seq<(usize, usize)>,
    pub err: Option<Error>,
}

/// The state before any byte is read.
pub open spec fn pinit() -> PState {
    PState { toks: Seq::empty(), stack: Seq::empty(), err: None }
}

/// One byte of the scan, reading `src[i]`.
///
/// A move or cell-change byte extends the run it continues (when the
/// previous byte belongs to the same run) by rewriting the last
/// instruction, and otherwise opens a new run of its own. A `[` pushes a
/// placeholder and records it; a `]` pops its partner and resolves both
/// targets, or stops the scan when nothing is open. Every other byte is
/// a comment. A stopped scan stays stopped.
pub open spec fn pstep(src: Seq<u8>, i: int, s: PState) -> PState {
    if s.err is Some {
        s
    } else {
        let b = src[i];
        if is_move(b) {
            if i > 0 && is_move(src[i - 1]) && s.toks.len() > 0 && (s.toks.last()
                matches Instruction::MoveRef(_)) {
                let l = s.toks.len() - 1;
                let d = match s.toks[l] {
                    Instruction::MoveRef(d0) => d0 as int,
                    _ => 0,
                };
                PState { toks: s.toks.update(l, Instruction::MoveRef((d + move_sign(b)) as i64)), ..s }
            } else {
                PState { toks: s.toks.push(Instruction::MoveRef(move_sign(b) as i64)), ..s }
            }
        } else if is_add(b) {
            if i > 0 && is_add(src[i - 1]) && s.toks.len() > 0 && (s.toks.last()
                matches Instruction::AddCell(_)) {
                let l = s.toks.len() - 1;
                let d = match s.toks[l] {
                    Instruction::AddCell(d0) => d0 as int,
                    _ => 0,
                };
                PState { toks: s.toks.update(l, Instruction::AddCell((d + add_sign(b)) as i64)), ..s }
            } else {
                PState { toks: s.toks.push(Instruction::AddCell(add_sign(b) as i64)), ..s }
            }
        } else if b == WRITE_OUT {
            PState { toks: s.toks.push(Instruction::Output), ..s }
        } else if b == READ_IN {
            PState { toks: s.toks.push(Instruction::Input), ..s }
        } else if b == LOOP_OPEN {
            PState {
                toks: s.toks.push(Instruction::JumpIfZero(0)),
                stack: s.stack.push(((s.toks.len() as usize), (i as usize))),
                ..s
            }
        } else if b == LOOP_CLOSE {
            if s.stack.len() == 0 {
                PState { err: Some(Error::UnclosedRB(i as usize)), ..s }
            } else {
                let j = s.stack.last().0;
                PState {
                    toks: s.toks.update(
                        j as int,
                        Instruction::JumpIfZero(s.toks.len() as usize),
                    ).push(Instruction::JumpIfNonZero(j)),
                    stack: s.stack.drop_last(),
                    ..s
                }
            }
        } else {
            s
        }
    }
}

/// The parser's state after the first `n` bytes of the source.
pub open spec fn pstate_at(src: Seq<u8>, n: int) -> PState
    decreases n,
{
    if n <= 0 {
        pinit()
    } else {
        pstep(src, n - 1, pstate_at(src, n - 1))
    }
}

/// What parsing the whole source yields: the error that stopped the
/// scan; else, if loops are still open, `UnclosedLB` at the offset of
/// the outermost (bottom-of-stack) one; else the finished instruction
/// sequence.
pub open spec fn parse_result(src: Seq<u8>) -> Result<Seq<Instruction>, Error> {
    let s = pstate_at(src, src.len() as int);
    match s.err {
        Some(e) => Err(e),
        None => if s.stack.len() > 0 {
            Err(Error::UnclosedLB(s.stack[0].1))
        } else {
            Ok(s.toks)
        },
    }
}

/// Some entry of the stack holds instruction index `j`.
pub open spec fn on_stack(s: PState, j: int) -> bool {
    exists|k: int| 0 <= k < s.stack.len() && #[trigger] s.stack[k].0 == j
}

/// Stack entry `k` points at a placeholder instruction already built,
/// and records a source offset already scanned.
pub open spec fn entry_ok(s: PState, i: int, k: int) -> bool {
    &&& (s.stack[k].0 as int) < s.toks.len()
    &&& s.toks[s.stack[k].0 as int] == Instruction::JumpIfZero(0)
    &&& (s.stack[k].1 as int) < i
}

/// What holds of the parser's state between bytes: no more instructions
/// than bytes read, every still-open loop points at its placeholder,
/// stack entries rise from the bottom (so the bottom is the outermost),
/// and every instruction not on the stack already carries a resolved,
/// mutually consistent jump target.
pub open spec fn pinv(i: int, s: PState) -> bool {
    &&& s.toks.len() <= i
    &&& s.stack.len() <= s.toks.len()
    &&& (forall|k: int| 0 <= k < s.stack.len() ==> #[trigger] entry_ok(s, i, k))
    &&& (forall|k1: int, k2: int|
        #![trigger s.stack[k1].0, s.stack[k2].0]
        0 <= k1 < k2 < s.stack.len() ==> s.stack[k1].0 < s.stack[k2].0)
    &&& (forall|j: int| 0 <= j < s.toks.len() && !on_stack(s, j) ==> #[trigger] jump_ok(s.toks, j))
}

/// A stopped scan stays stopped, with its state frozen.
proof fn lemma_err_frozen(src: Seq<u8>, i: int, j: int)
    requires
        0 <= i <= j,
        pstate_at(src, i).err is Some,
    ensures
        pstate_at(src, j) == pstate_at(src, i),
    decreases j - i,
{
    if j > i {
        lemma_err_frozen(src, i, j - 1);
    }
}

/// Pushing an instruction that is not a jump preserves the invariant.
proof fn lemma_push_plain(i: int, s: PState, instr: Instruction)
    requires
        pinv(i, s),
        i >= 0,
        !(instr is JumpIfZero),
        !(instr is JumpIfNonZero),
    ensures
        pinv(i + 1, PState { toks: s.toks.push(instr), ..s }),
{
    let s2 = PState { toks: s.toks.push(instr), ..s };
    assert forall|k: int| 0 <= k < s2.stack.len() implies #[trigger] entry_ok(s2, i + 1, k) by {
        assert(entry_ok(s, i, k));
    }
    assert forall|j: int| 0 <= j < s2.toks.len() && !on_stack(s2, j) implies #[trigger] jump_ok(
        s2.toks,
        j,
    ) by {
        if j < s.toks.len() {
            assert(!on_stack(s, j));
            assert(jump_ok(s.toks, j));
        }
    }
}

/// Rewriting the last instruction, when neither it nor its replacement
/// is a jump, preserves the invariant.
proof fn lemma_update_last_plain(i: int, s: PState, instr: Instruction)
    requires
        pinv(i, s),
        i >= 0,
        s.toks.len() > 0,
        !(s.toks.last() is JumpIfZero),
        !(s.toks.last() is JumpIfNonZero),
        !(instr is JumpIfZero),
        !(instr is JumpIfNonZero),
    ensures
        pinv(i + 1, PState { toks: s.toks.update(s.toks.len() - 1, instr), ..s }),
{
    let l = s.toks.len() - 1;
    let s2 = PState { toks: s.toks.update(l, instr), ..s };
    assert forall|k: int| 0 <= k < s2.stack.len() implies #[trigger] entry_ok(s2, i + 1, k) by {
        assert(entry_ok(s, i, k));
    }
    assert forall|j: int| 0 <= j < s2.toks.len() && !on_stack(s2, j) implies #[trigger] jump_ok(
        s2.toks,
        j,
    ) by {
        assert(!on_stack(s, j));
        assert(jump_ok(s.toks, j));
        if j != l {
            match s.toks[j] {
                Instruction::JumpIfZero(t) => {
                    assert(s.toks[t as int] is JumpIfNonZero);
                },
                Instruction::JumpIfNonZero(t) => {
                    assert(s.toks[t as int] is JumpIfZero);
                },
                _ => {},
            }
        }
    }
}

/// A loop-open byte pushes a placeholder and records it; the invariant
/// is preserved.
proof fn lemma_open(i: int, s: PState)
    requires
        pinv(i, s),
        0 <= i <= usize::MAX,
    ensures
        pinv(
            i + 1,
            PState {
                toks: s.toks.push(Instruction::JumpIfZero(0)),
                stack: s.stack.push(((s.toks.len() as usize), (i as usize))),
                ..s
            },
        ),
{
    let l = s.toks.len();
    let s2 = PState {
        toks: s.toks.push(Instruction::JumpIfZero(0)),
        stack: s.stack.push(((l as usize), (i as usize))),
        ..s
    };
    assert forall|k: int| 0 <= k < s2.stack.len() implies #[trigger] entry_ok(s2, i + 1, k) by {
        if k < s.stack.len() {
            assert(entry_ok(s, i, k));
        }
    }
    assert forall|k1: int, k2: int|
        #![trigger s2.stack[k1].0, s2.stack[k2].0]
        0 <= k1 < k2 < s2.stack.len() implies s2.stack[k1].0 < s2.stack[k2].0 by {
        if k2 < s.stack.len() {
            assert(s.stack[k1].0 < s.stack[k2].0);
        } else {
            assert(entry_ok(s, i, k1));
        }
    }
    assert forall|j: int| 0 <= j < s2.toks.len() && !on_stack(s2, j) implies #[trigger] jump_ok(
        s2.toks,
        j,
    ) by {
        if j < l {
            assert(!on_stack(s, j)) by {
                if on_stack(s, j) {
                    let k = choose|k: int| 0 <= k < s.stack.len() && #[trigger] s.stack[k].0 == j;
                    assert(s2.stack[k].0 == j);
                }
            }
            assert(jump_ok(s.toks, j));
        } else {
            assert(s2.stack[s.stack.len() as int].0 == j);
        }
    }
}

/// A loop-close byte pops the innermost open loop and resolves the pair
/// to point at each other; the invariant is preserved.
proof fn lemma_close(i: int, s: PState)
    requires
        pinv(i, s),
        i >= 0,
        s.toks.len() <= usize::MAX,
        s.stack.len() > 0,
    ensures
        pinv(
            i + 1,
            PState {
                toks: s.toks.update(
                    s.stack.last().0 as int,
                    Instruction::JumpIfZero(s.toks.len() as usize),
                ).push(Instruction::JumpIfNonZero(s.stack.last().0)),
                stack: s.stack.drop_last(),
                ..s
            },
        ),
{
    let top = s.stack.len() - 1;
    assert(entry_ok(s, i, top));
    let j = s.stack.last().0;
    let l = s.toks.len();
    let toks2 = s.toks.update(j as int, Instruction::JumpIfZero(l as usize)).push(
        Instruction::JumpIfNonZero(j),
    );
    let s2 = PState { toks: toks2, stack: s.stack.drop_last(), ..s };
    assert(toks2.len() == l + 1);
    assert forall|k: int| 0 <= k < s2.stack.len() implies #[trigger] entry_ok(s2, i + 1, k) by {
        assert(entry_ok(s, i, k));
        assert(s.stack[k].0 < s.stack[top as int].0);
    }
    assert forall|j2: int| 0 <= j2 < s2.toks.len() && !on_stack(s2, j2) implies #[trigger] jump_ok(
        s2.toks,
        j2,
    ) by {
        if j2 == j {
            assert(toks2[j2] == Instruction::JumpIfZero(l as usize));
            assert(toks2[l as int] == Instruction::JumpIfNonZero(j));
        } else if j2 == l {
            assert(toks2[j2] == Instruction::JumpIfNonZero(j));
            assert(toks2[j as int] == Instruction::JumpIfZero(l as usize));
        } else {
            assert(!on_stack(s, j2)) by {
                if on_stack(s, j2) {
                    let k = choose|k: int|
                        0 <= k < s.stack.len() && #[trigger] s.stack[k].0 == j2;
                    if k < top {
                        assert(s2.stack[k].0 == j2);
                    }
                }
            }
            assert(jump_ok(s.toks, j2));
            assert(toks2[j2] == s.toks[j2]);
            match s.toks[j2] {
                Instruction::JumpIfZero(t) => {
                    assert(s.toks[t as int] is JumpIfNonZero);
                    assert(t != j);
                },
                Instruction::JumpIfNonZero(t) => {
                    assert(s.toks[t as int] == Instruction::JumpIfZero(j2 as usize));
                    assert(t != j);
                },
                _ => {},
            }
        }
    }
}

/// The invariant holds after every prefix of the scan.
proof fn lemma_pinv(src: Seq<u8>, i: int)
    requires
        0 <= i <= src.len(),
        src.len() <= usize::MAX,
    ensures
        pinv(i, pstate_at(src, i)),
    decreases i,
{
    if i > 0 {
        lemma_pinv(src, i - 1);
        let s = pstate_at(src, i - 1);
        let s2 = pstate_at(src, i);
        if s.err is Some || (s2 == s) || (s2 == PState { err: s2.err, ..s }) {
            // the byte changed nothing, or only set the error
            assert forall|k: int| 0 <= k < s2.stack.len() implies #[trigger] entry_ok(
                s2,
                i,
                k,
            ) by {
                assert(entry_ok(s, i - 1, k));
            }
            assert forall|j: int|
                0 <= j < s2.toks.len() && !on_stack(s2, j) implies #[trigger] jump_ok(
                s2.toks,
                j,
            ) by {
                assert(!on_stack(s, j));
                assert(jump_ok(s.toks, j));
            }
        } else {
            let b = src[i - 1];
            if is_move(b) {
                if i - 1 > 0 && is_move(src[i - 2]) && s.toks.len() > 0 && (s.toks.last()
                    matches Instruction::MoveRef(_)) {
                    let l = s.toks.len() - 1;
                    let d = match s.toks[l] {
                        Instruction::MoveRef(d0) => d0 as int,
                        _ => 0,
                    };
                    lemma_update_last_plain(
                        i - 1,
                        s,
                        Instruction::MoveRef((d + move_sign(b)) as i64),
                    );
                } else {
                    lemma_push_plain(i - 1, s, Instruction::MoveRef(move_sign(b) as i64));
                }
            } else if is_add(b) {
                if i - 1 > 0 && is_add(src[i - 2]) && s.toks.len() > 0 && (s.toks.last()
                    matches Instruction::AddCell(_)) {
                    let l = s.toks.len() - 1;
                    let d = match s.toks[l] {
                        Instruction::AddCell(d0) => d0 as int,
                        _ => 0,
                    };
                    lemma_update_last_plain(
                        i - 1,
                        s,
                        Instruction::AddCell((d + add_sign(b)) as i64),
                    );
                } else {
                    lemma_push_plain(i - 1, s, Instruction::AddCell(add_sign(b) as i64));
                }
            } else if b == WRITE_OUT {
                lemma_push_plain(i - 1, s, Instruction::Output);
            } else if b == READ_IN {
                lemma_push_plain(i - 1, s, Instruction::Input);
            } else if b == LOOP_OPEN {
                lemma_open(i - 1, s);
            } else if b == LOOP_CLOSE {
                assert(s.stack.len() > 0);
                lemma_close(i - 1, s);
            }
        }
    }
}

/// While the scan stands just after a move or cell-change character,
/// the last instruction built is that run's, with a magnitude no larger
/// than the number of bytes read.
proof fn lemma_run_shape(src: Seq<u8>, i: int)
    requires
        0 < i <= src.len(),
        src.len() <= i64::MAX,
        pstate_at(src, i).err is None,
    ensures
        is_move(src[i - 1]) ==> pstate_at(src, i).toks.len() > 0 && (pstate_at(src, i).toks.last()
            matches Instruction::MoveRef(d) && -i <= d <= i),
        is_add(src[i - 1]) ==> pstate_at(src, i).toks.len() > 0 && (pstate_at(src, i).toks.last()
            matches Instruction::AddCell(d) && -i <= d <= i),
    decreases i,
{
    let s = pstate_at(src, i - 1);
    if s.err is Some {
        lemma_err_frozen(src, i - 1, i);
    }
    if i > 1 && ((is_move(src[i - 1]) && is_move(src[i - 2])) || (is_add(src[i - 1]) && is_add(
        src[i - 2],
    ))) {
        lemma_run_shape(src, i - 1);
    }
}

/// Parse source text into a jump-resolved program, or report the first
/// parse error with its byte offset.
///
/// The scan is one pass, left to right. Runs of consecutive move
/// characters collapse into a single `MoveRef`, runs of consecutive
/// increment/decrement characters into a single `AddCell`; the two I/O
/// characters each emit one instruction; brackets are resolved through
/// an explicit stack; every other byte is ignored as a comment. The
/// length bound keeps a collapsed run's delta inside a machine word.
pub fn parse(source: &str) -> (r: Result<Program, Error>)
    requires
        source.spec_bytes().len() <= i64::MAX,
    ensures
        match r {
            Ok(p) => parse_result(source.spec_bytes()) == Ok::<Seq<Instruction>, Error>(p@)
                && p.wf(),
            Err(e) => parse_result(source.spec_bytes()) == Err::<Seq<Instruction>, Error>(e),
        },
{
    let bytes: &[u8] = source.as_bytes();
    let ghost src = source.spec_bytes();
    let n: usize = bytes.len();
    let mut toks: Vec<Instruction> = Vec::new();
    let mut stack: Vec<(usize, usize)> = Vec::new();
    let mut i: usize = 0;
    while i < n
        invariant
            src == source.spec_bytes(),
            bytes@ == src,
            n == src.len(),
            src.len() <= i64::MAX,
            i <= n,
            pstate_at(src, i as int).err is None,
            toks@ == pstate_at(src, i as int).toks,
            stack@ == pstate_at(src, i as int).stack,
        decreases n - i,
    {
        let ghost s = pstate_at(src, i as int);
        proof {
            assert(pstate_at(src, i + 1) == pstep(src, i as int, s));
        }
        let b = bytes[i];
        if b == FORWARD || b == BACKWARD {
            if i > 0 && (bytes[i - 1] == FORWARD || bytes[i - 1] == BACKWARD) {
                proof {
                    lemma_run_shape(src, i as int);
                }
                let last = toks.len() - 1;
                let d = match toks[last] {
                    Instruction::MoveRef(d0) => d0,
                    _ => 0,
                };
                let nd = if b == FORWARD {
                    d + 1
                } else {
                    d - 1
                };
                toks[last] = Instruction::MoveRef(nd);
            } else {
                toks.push(Instruction::MoveRef(if b == FORWARD { 1 } else { -1 }));
            }
        } else if b == INCREMENT || b == DECREMENT {
            if i > 0 && (bytes[i - 1] == INCREMENT || bytes[i - 1] == DECREMENT) {
                proof {
                    lemma_run_shape(src, i as int);
                }
                let last = toks.len() - 1;
                let d = match toks[last] {
                    Instruction::AddCell(d0) => d0,
                    _ => 0,
                };
                let nd = if b == INCREMENT {
                    d + 1
                } else {
                    d - 1
                };
                toks[last] = Instruction::AddCell(nd);
            } else {
                toks.push(Instruction::AddCell(if b == INCREMENT { 1 } else { -1 }));
            }
        } else if b == WRITE_OUT {
            toks.push(Instruction::Output);
        } else if b == READ_IN {
            toks.push(Instruction::Input);
        } else if b == LOOP_OPEN {
            let idx = toks.len();
            toks.push(Instruction::JumpIfZero(0));
            stack.push((idx, i));
        } else if b == LOOP_CLOSE {
            match stack.pop() {
                None => {
                    proof {
                        lemma_err_frozen(src, i + 1, src.len() as int);
                    }
                    return Err(Error::UnclosedRB(i));
                },
                Some(lb) => {
                    proof {
                        lemma_pinv(src, i as int);
                        assert(entry_ok(s, i as int, s.stack.len() - 1));
                    }
                    let close_idx = toks.len();
                    toks.push(Instruction::JumpIfNonZero(lb.0));
                    toks[lb.0] = Instruction::JumpIfZero(close_idx);
                    proof {
                        assert(toks@ =~= s.toks.update(
                            lb.0 as int,
                            Instruction::JumpIfZero(close_idx),
                        ).push(Instruction::JumpIfNonZero(lb.0)));
                    }
                },
            }
        }
        i = i + 1;
    }
    let ghost fs = pstate_at(src, src.len() as int);
    if stack.len() > 0 {
        return Err(Error::UnclosedLB(stack[0].1));
    }
    proof {
        lemma_pinv(src, src.len() as int);
        assert forall|j: int| 0 <= j < fs.toks.len() implies #[trigger] jump_ok(fs.toks, j) by {
            assert(!on_stack(fs, j));
        }
    }
    Ok(Program { instructions: toks })
}

} // verus!
