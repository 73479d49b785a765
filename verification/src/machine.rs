//! The execution engine: a small-step semantics for resolved programs,
//! and a machine that implements it one instruction at a time.

use vstd::prelude::*;
use crate::program::{Instruction, Program, jump_ok};
use crate::Error;
use std::collections::HashMap;

verus! {

/// The value of address `a` in a sparse memory: 0 for any address never
/// written.
pub open spec fn read_mem(mem: Map<u64, u8>, a: u64) -> u8 {
    if mem.contains_key(a) {
        mem[a]
    } else {
        0
    }
}

/// A cell change wraps modulo 256, matching two's-complement byte
/// arithmetic.
pub open spec fn wrap_add(cur: u8, delta: i64) -> u8 {
    (((cur + delta) % 256) as u8)
}

/// The largest representable address. The data pointer is held in a
/// 64-bit machine word; a forward move past this address stops at it.
pub open spec fn max_addr() -> int {
    u64::MAX as int
}

/// The whole state of one execution, seen abstractly: instruction
/// pointer, data pointer, sparse memory, how many input bytes were
/// consumed, the bytes emitted so far, and whether the run has failed.
pub ghost struct ExecState {
    pub ip: int,
    pub dp: u64,
    pub mem: Map<u64, u8>,
    pub nread: int,
    pub out: Seq<u8>,
    pub failed: bool,
}

/// The state every execution starts from: instruction 0, address 0, an
/// empty memory, nothing read, nothing written.
pub open spec fn init_state() -> ExecState {
    ExecState {
        ip: 0,
        dp: 0,
        mem: Map::empty(),
        nread: 0,
        out: Seq::empty(),
        failed: false,
    }
}

/// A state from which no step is taken: the run failed, or the
/// instruction pointer reached the program length.
pub open spec fn halted(p: Seq<Instruction>, s: ExecState) -> bool {
    s.failed || s.ip >= p.len()
}

/// The byte an `Input` instruction stores: the next unread byte of the
/// scripted input, or 0 once the script is exhausted.
pub open spec fn input_byte(inp: Seq<u8>, nread: int) -> u8 {
    if 0 <= nread < inp.len() {
        inp[nread]
    } else {
        0
    }
}

/// One step of execution. Each instruction's effect is applied, then the
/// instruction pointer advances by exactly one (a jump first reassigns
/// it to the stored target, so the trailing increment lands just past
/// the partner bracket). A halted state steps to itself.
pub open spec fn step(p: Seq<Instruction>, inp: Seq<u8>, s: ExecState) -> ExecState {
    if halted(p, s) {
        s
    } else {
        match p[s.ip] {
            Instruction::MoveRef(d) => {
                let nd = s.dp + d;
                if nd < 0 {
                    ExecState { failed: true, ..s }
                } else {
                    ExecState {
                        ip: s.ip + 1,
                        dp: if nd > max_addr() {
                            u64::MAX
                        } else {
                            (nd as u64)
                        },
                        ..s
                    }
                }
            },
            Instruction::AddCell(d) => ExecState {
                ip: s.ip + 1,
                mem: s.mem.insert(s.dp, wrap_add(read_mem(s.mem, s.dp), d)),
                ..s
            },
            Instruction::Output => ExecState {
                ip: s.ip + 1,
                out: s.out.push(read_mem(s.mem, s.dp)),
                ..s
            },
            Instruction::Input => ExecState {
                ip: s.ip + 1,
                mem: s.mem.insert(s.dp, input_byte(inp, s.nread)),
                nread: s.nread + 1,
                ..s
            },
            Instruction::JumpIfZero(t) => ExecState {
                ip: if read_mem(s.mem, s.dp) == 0 {
                    t + 1
                } else {
                    s.ip + 1
                },
                ..s
            },
            Instruction::JumpIfNonZero(t) => ExecState {
                ip: if read_mem(s.mem, s.dp) != 0 {
                    t + 1
                } else {
                    s.ip + 1
                },
                ..s
            },
        }
    }
}

/// The state after `n` steps from the initial state.
pub open spec fn state_at(p: Seq<Instruction>, inp: Seq<u8>, n: nat) -> ExecState
    decreases n,
{
    if n == 0 {
        init_state()
    } else {
        step(p, inp, state_at(p, inp, (n - 1) as nat))
    }
}

/// After `n` steps the run has ended normally: the instruction pointer
/// reached the program length without a failure.
pub open spec fn finishes_at(p: Seq<Instruction>, inp: Seq<u8>, n: nat) -> bool {
    &&& !state_at(p, inp, n).failed
    &&& state_at(p, inp, n).ip >= p.len()
}

/// After `n` steps the run has failed (the one runtime failure is a
/// move below address 0).
pub open spec fn fails_at(p: Seq<Instruction>, inp: Seq<u8>, n: nat) -> bool {
    state_at(p, inp, n).failed
}

/// Sparse memory: one step writes at most one address, so after `n`
/// steps the memory holds at most `n` addresses, however far the data
/// pointer has moved. Space follows the writes, never the addresses.
pub proof fn lemma_sparse_memory(p: Seq<Instruction>, inp: Seq<u8>, n: nat)
    ensures
        state_at(p, inp, n).mem.dom().finite(),
        state_at(p, inp, n).mem.dom().len() <= n,
    decreases n,
{
    if n == 0 {
        assert(state_at(p, inp, n).mem.dom() =~= Set::<u64>::empty());
    } else {
        lemma_sparse_memory(p, inp, (n - 1) as nat);
        let s = state_at(p, inp, (n - 1) as nat);
        let s2 = state_at(p, inp, n);
        if s2.mem != s.mem {
            assert(s2.mem.dom() =~= s.mem.dom().insert(s.dp));
        }
    }
}

/// A halted state is absorbing: once a run has ended, every later state
/// is the same state. Together with determinism of `step` this pins the
/// outcome: whatever step count first halts decides the whole run.
pub proof fn lemma_halted_sticky(p: Seq<Instruction>, inp: Seq<u8>, n: nat, m: nat)
    requires
        n <= m,
        halted(p, state_at(p, inp, n)),
    ensures
        state_at(p, inp, m) == state_at(p, inp, n),
    decreases m,
{
    if m > n {
        lemma_halted_sticky(p, inp, n, (m - 1) as nat);
    }
}

/// What one `Machine` holds, seen abstractly: the instruction pointer,
/// the data pointer, and the sparse memory.
pub ghost struct MachineView {
    pub ip: int,
    pub dp: u64,
    pub mem: Map<u64, u8>,
}

/// The machine agrees with an abstract state on everything it stores.
/// (Bytes emitted and bytes read live with the machine's caller, which
/// performs the I/O.)
pub open spec fn agrees(v: MachineView, s: ExecState) -> bool {
    &&& v.ip == s.ip
    &&& v.dp == s.dp
    &&& v.mem == s.mem
}

/// What one call of `Machine::step` did, when the instruction pointer
/// was in range: the effect of the fetched instruction, followed by the
/// uniform increment of the instruction pointer. An `Input` instruction
/// takes no effect here; the machine waits for `feed`.
pub open spec fn step_effect(
    p: Seq<Instruction>,
    v0: MachineView,
    v1: MachineView,
    r: StepOutcome,
) -> bool
    recommends
        0 <= v0.ip < p.len(),
{
    match p[v0.ip] {
        Instruction::MoveRef(d) => {
            let nd = v0.dp + d;
            if nd < 0 {
                r == StepOutcome::Failed(Error::NegDP) && v1 == v0
            } else {
                r == StepOutcome::Ran && v1 == (MachineView {
                    ip: v0.ip + 1,
                    dp: if nd > max_addr() {
                        u64::MAX
                    } else {
                        (nd as u64)
                    },
                    mem: v0.mem,
                })
            }
        },
        Instruction::AddCell(d) => r == StepOutcome::Ran && v1 == (MachineView {
            ip: v0.ip + 1,
            dp: v0.dp,
            mem: v0.mem.insert(v0.dp, wrap_add(read_mem(v0.mem, v0.dp), d)),
        }),
        Instruction::Output => r == StepOutcome::Emitted(read_mem(v0.mem, v0.dp)) && v1
            == (MachineView { ip: v0.ip + 1, ..v0 }),
        Instruction::Input => r == StepOutcome::AwaitingInput && v1 == v0,
        Instruction::JumpIfZero(t) => r == StepOutcome::Ran && v1 == (MachineView {
            ip: if read_mem(v0.mem, v0.dp) == 0 {
                t + 1
            } else {
                v0.ip + 1
            },
            ..v0
        }),
        Instruction::JumpIfNonZero(t) => r == StepOutcome::Ran && v1 == (MachineView {
            ip: if read_mem(v0.mem, v0.dp) != 0 {
                t + 1
            } else {
                v0.ip + 1
            },
            ..v0
        }),
    }
}

/// What one call of `Machine::step` reports.
#[derive(Debug, Clone, Copy, PartialEq, Eq, Structural)]
pub enum StepOutcome {
    /// A non-I/O instruction took effect.
    Ran,
    /// An `Output` instruction ran; the caller writes this byte out.
    Emitted(u8),
    /// The current instruction is `Input`; the machine did not advance
    /// and waits for `feed` to hand it one byte.
    AwaitingInput,
    /// The instruction pointer reached the program length: the run ended
    /// normally.
    Done,
    /// The run failed; the one runtime failure is a move below address 0.
    Failed(Error),
}

/// The current value of the cell at address `a`, default 0.
fn get_cell(cells: &HashMap<u64, u8>, a: u64) -> (r: u8)
    ensures
        r == read_mem(cells@, a),
{
    match cells.get(&a) {
        Some(v) => *v,
        None => 0,
    }
}

/// `cur + delta` reduced modulo 256, stored back as an unsigned byte, so
/// that cell arithmetic wraps (256 is congruent to 0).
fn add_to_cell(cur: u8, delta: i64) -> (r: u8)
    ensures
        r == wrap_add(cur, delta),
{
    let d: u64 = if delta >= 0 {
        (delta as u64) % 256
    } else {
        let mag: u64 = (-(delta as i128)) as u64;
        let rm: u64 = mag % 256;
        if rm == 0 {
            0
        } else {
            256 - rm
        }
    };
    proof {
        if delta < 0 {
            let mag = -(delta as int);
            let q = mag / 256;
            let rm = mag % 256;
            vstd::arithmetic::div_mod::lemma_fundamental_div_mod(mag, 256);
            if rm == 0 {
                vstd::arithmetic::div_mod::lemma_mod_multiples_vanish(-q, 0, 256);
                vstd::arithmetic::div_mod::lemma_small_mod(0, 256);
            } else {
                vstd::arithmetic::div_mod::lemma_mod_multiples_vanish(-q - 1, 256 - rm, 256);
                vstd::arithmetic::div_mod::lemma_small_mod((256 - rm) as nat, 256);
            }
        }
        assert(d == (delta as int) % 256);
        vstd::arithmetic::div_mod::lemma_add_mod_noop(cur as int, delta as int, 256);
        vstd::arithmetic::div_mod::lemma_small_mod(cur as nat, 256);
    }
    let s: u64 = cur as u64 + d;
    let r: u64 = s % 256;
    r as u8
}

/// The execution engine's state for one run: a sparse memory, the data
/// pointer, and the instruction pointer. Created fresh for a run and
/// discarded at its end.
pub struct Machine {
    cells: HashMap<u64, u8>,
    dp: u64,
    ip: usize,
}

impl View for Machine {
    type V = MachineView;

    closed spec fn view(&self) -> MachineView {
        MachineView { ip: self.ip as int, dp: self.dp, mem: self.cells@ }
    }
}

impl Machine {
    /// A machine in the initial state: instruction 0, address 0, an
    /// empty memory.
    pub fn new() -> (m: Machine)
        ensures
            agrees(m@, init_state()),
    {
        Machine { cells: HashMap::new(), dp: 0, ip: 0 }
    }

    /// Fetch and run one instruction, reporting what happened. The
    /// caller performs any I/O the outcome asks for: it writes the byte
    /// of `Emitted`, and answers `AwaitingInput` with `feed`.
    pub fn step(&mut self, prog: &Program) -> (r: StepOutcome)
        requires
            prog.wf(),
        ensures
            old(self)@.ip >= prog@.len() ==> r == StepOutcome::Done && final(self)@ == old(self)@,
            0 <= old(self)@.ip < prog@.len() ==> step_effect(prog@, old(self)@, final(self)@, r),
    {
        if self.ip >= prog.instructions.len() {
            return StepOutcome::Done;
        }
        proof {
            assert(jump_ok(prog@, self.ip as int));
        }
        let instr = prog.instructions[self.ip];
        match instr {
            Instruction::MoveRef(d) => {
                if d >= 0 {
                    let du = d as u64;
                    if du > u64::MAX - self.dp {
                        self.dp = u64::MAX;
                    } else {
                        self.dp = self.dp + du;
                    }
                } else {
                    let mag = (-(d as i128)) as u64;
                    if mag > self.dp {
                        return StepOutcome::Failed(Error::NegDP);
                    }
                    self.dp = self.dp - mag;
                }
                self.ip = self.ip + 1;
                StepOutcome::Ran
            },
            Instruction::AddCell(d) => {
                let cur = get_cell(&self.cells, self.dp);
                let nv = add_to_cell(cur, d);
                self.cells.insert(self.dp, nv);
                self.ip = self.ip + 1;
                StepOutcome::Ran
            },
            Instruction::Output => {
                let b = get_cell(&self.cells, self.dp);
                self.ip = self.ip + 1;
                StepOutcome::Emitted(b)
            },
            Instruction::Input => StepOutcome::AwaitingInput,
            Instruction::JumpIfZero(t) => {
                if get_cell(&self.cells, self.dp) == 0 {
                    self.ip = t + 1;
                } else {
                    self.ip = self.ip + 1;
                }
                StepOutcome::Ran
            },
            Instruction::JumpIfNonZero(t) => {
                if get_cell(&self.cells, self.dp) != 0 {
                    self.ip = t + 1;
                } else {
                    self.ip = self.ip + 1;
                }
                StepOutcome::Ran
            },
        }
    }

    /// Answer an `AwaitingInput` outcome: store one byte in the current
    /// cell and advance past the `Input` instruction.
    pub fn feed(&mut self, prog: &Program, byte: u8)
        requires
            prog.wf(),
            0 <= old(self)@.ip < prog@.len(),
            prog@[old(self)@.ip] == Instruction::Input,
        ensures
            final(self)@ == (MachineView {
                ip: old(self)@.ip + 1,
                dp: old(self)@.dp,
                mem: old(self)@.mem.insert(old(self)@.dp, byte),
            }),
    {
        let len = prog.instructions.len();
        assert(self.ip < len);
        self.cells.insert(self.dp, byte);
        self.ip = self.ip + 1;
    }
}

/// Run a program against a fresh machine, reading from a scripted input
/// and collecting the emitted bytes, for at most `max_steps`
/// instructions.
///
/// An `Input` instruction consumes the next unread byte of `input`, or
/// stores 0 once the script is exhausted. `None` says the program had
/// neither ended nor failed after `max_steps` instructions (the language
/// can loop forever, so a budget is the price of a run that always
/// returns). On a failed run any bytes already emitted are discarded
/// with the run; a caller that must see them, or that wants live I/O,
/// drives `Machine::step` itself.
pub fn execute(prog: &Program, input: &[u8], max_steps: u64) -> (r: Option<
    Result<Vec<u8>, Error>,
>)
    requires
        prog.wf(),
    ensures
        match r {
            Some(Ok(out)) => exists|n: nat|
                #[trigger] finishes_at(prog@, input@, n) && state_at(prog@, input@, n).out == out@,
            Some(Err(e)) => e == Error::NegDP && exists|n: nat|
                #[trigger] fails_at(prog@, input@, n),
            None => !halted(prog@, state_at(prog@, input@, max_steps as nat)),
        },
{
    let ghost p = prog@;
    let ghost inp = input@;
    let mut m = Machine::new();
    let mut out: Vec<u8> = Vec::new();
    let mut next_in: usize = 0;
    let mut steps: u64 = 0;
    let ghost mut n: nat = 0;
    while steps < max_steps
        invariant
            prog.wf(),
            p == prog@,
            inp == input@,
            n == steps,
            steps <= max_steps,
            !state_at(p, inp, n).failed,
            agrees(m@, state_at(p, inp, n)),
            out@ == state_at(p, inp, n).out,
            next_in <= input@.len(),
            next_in < input@.len() ==> next_in == state_at(p, inp, n).nread,
            next_in == input@.len() ==> state_at(p, inp, n).nread >= input@.len(),
        decreases max_steps - steps,
    {
        let ghost s = state_at(p, inp, n);
        let outcome = m.step(prog);
        match outcome {
            StepOutcome::Done => {
                proof {
                    assert(finishes_at(p, inp, n) && state_at(p, inp, n).out == out@);
                }
                return Some(Ok(out));
            },
            StepOutcome::Failed(e) => {
                proof {
                    assert(state_at(p, inp, n + 1) == step(p, inp, s));
                    assert(fails_at(p, inp, n + 1));
                }
                return Some(Err(e));
            },
            StepOutcome::Ran => {
                proof {
                    assert(state_at(p, inp, n + 1) == step(p, inp, s));
                    n = n + 1;
                }
            },
            StepOutcome::Emitted(b) => {
                out.push(b);
                proof {
                    assert(state_at(p, inp, n + 1) == step(p, inp, s));
                    n = n + 1;
                }
            },
            StepOutcome::AwaitingInput => {
                let b: u8;
                if next_in < input.len() {
                    b = input[next_in];
                    next_in = next_in + 1;
                } else {
                    b = 0;
                }
                m.feed(prog, b);
                proof {
                    assert(b == input_byte(inp, s.nread));
                    assert(state_at(p, inp, n + 1) == step(p, inp, s));
                    n = n + 1;
                }
            },
        }
        steps = steps + 1;
    }
    // The budget is spent. One more fetch tells whether the run ended
    // exactly at the budget; a machine past its last observed state is
    // discarded either way.
    let outcome = m.step(prog);
    match outcome {
        StepOutcome::Done => {
            proof {
                assert(finishes_at(p, inp, n) && state_at(p, inp, n).out == out@);
            }
            Some(Ok(out))
        },
        StepOutcome::Failed(e) => {
            proof {
                assert(state_at(p, inp, n + 1) == step(p, inp, state_at(p, inp, n)));
                assert(fails_at(p, inp, n + 1));
            }
            Some(Err(e))
        },
        _ => None,
    }
}

} // verus!
