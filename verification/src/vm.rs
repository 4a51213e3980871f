use vstd::prelude::*;

use crate::ops::Op;

verus! {

/// Number of cells on the tape, the classical convention.
pub const TAPE_LEN: usize = 30000;

/// A failure of execution: the data pointer left the tape.
#[derive(Debug, Clone, Copy, PartialEq, Eq, Structural)]
pub enum RuntimeError {
    PointerUnderflow,
    PointerOverflow,
}

/// The machine state the semantics speaks of: the tape, the data and
/// instruction pointers, how many input bytes are consumed, and the output
/// emitted so far.
pub ghost struct MState {
    pub cells: Seq<isize>,
    pub dp: int,
    pub pc: int,
    pub inpos: int,
    pub out: Seq<u8>,
}

/// What one instruction does to the machine: move to the next state, halt
/// (the instruction pointer is past the program), or fail.
pub ghost enum StepOut {
    Next(MState),
    Halted,
    Crashed(RuntimeError),
}

/// Where `n` steps of the machine end: still running in some state, halted
/// in a state, or failed in the state that the failing instruction saw.
pub ghost enum ExecOut {
    Running(MState),
    Halted(MState),
    Crashed(RuntimeError, MState),
}

/// Adding a run count to a cell. Cells are `isize`; the one arithmetic
/// policy, applied to every instruction, is wrapping at the `isize`
/// boundary (unreachable in practice: it would take `isize::MAX` repeated
/// increments).
pub open spec fn cell_add(c: isize, n: usize) -> isize {
    c.wrapping_add_unsigned(n)
}

/// Subtracting a run count from a cell, wrapping at the `isize` boundary:
/// adding the count's two's complement is the same subtraction.
pub open spec fn cell_sub(c: isize, n: usize) -> isize {
    c.wrapping_add_unsigned((0usize).wrapping_sub(n))
}

/// The low byte of a cell, the value `Output` emits: the cell reduced
/// modulo 256.
pub open spec fn cell_byte(c: isize) -> u8 {
    ((c as int) % 256) as u8
}

fn byte_of_cell(c: isize) -> (b: u8)
    ensures
        b == cell_byte(c),
{
    if c >= 0 {
        (c % 256) as u8
    } else {
        let p: isize = -(c + 1);
        let q: isize = p % 256;
        proof {
            let ci = c as int;
            let pi = p as int;
            vstd::arithmetic::div_mod::lemma_fundamental_div_mod(pi, 256);
            let k = pi / 256;
            assert(ci == 256 * (-k - 1) + (255 - (pi % 256)));
            vstd::arithmetic::div_mod::lemma_fundamental_div_mod_converse(
                ci,
                256,
                -k - 1,
                255 - (pi % 256),
            );
        }
        255 - (q as u8)
    }
}

/// One step of the machine on `prog`, drawing input bytes from `inp`.
///
/// `Plus` and `Minus` change the active cell by the run count; `Left` and
/// `Right` move the data pointer, failing when it would leave the tape
/// (reaching `TAPE_LEN` or passing 0); `LeftBracket` jumps to its target
/// when the active cell is zero, `RightBracket` when it is not, and either
/// falls through to the next instruction otherwise; `Dot` emits the active
/// cell's low byte once per count; `Comma` reads one input byte per count,
/// keeping the last, and reads nothing once the input is exhausted; `NoOp`
/// does nothing. A taken jump sets the instruction pointer to the target
/// exactly; everything else advances it by one.
pub open spec fn step(prog: Seq<Op>, inp: Seq<u8>, s: MState) -> StepOut {
    if !(0 <= s.pc < prog.len()) {
        StepOut::Halted
    } else {
        match prog[s.pc] {
            Op::Plus(n) => StepOut::Next(
                MState { cells: s.cells.update(s.dp, cell_add(s.cells[s.dp], n)), pc: s.pc + 1, ..s },
            ),
            Op::Minus(n) => StepOut::Next(
                MState { cells: s.cells.update(s.dp, cell_sub(s.cells[s.dp], n)), pc: s.pc + 1, ..s },
            ),
            Op::Left(n) => if n > s.dp {
                StepOut::Crashed(RuntimeError::PointerUnderflow)
            } else {
                StepOut::Next(MState { dp: s.dp - n, pc: s.pc + 1, ..s })
            },
            Op::Right(n) => if s.dp + n >= TAPE_LEN {
                StepOut::Crashed(RuntimeError::PointerOverflow)
            } else {
                StepOut::Next(MState { dp: s.dp + n, pc: s.pc + 1, ..s })
            },
            Op::RightBracket(t) => StepOut::Next(
                MState {
                    pc: if s.cells[s.dp] != 0 {
                        t as int
                    } else {
                        s.pc + 1
                    },
                    ..s
                },
            ),
            Op::LeftBracket(t) => StepOut::Next(
                MState {
                    pc: if s.cells[s.dp] == 0 {
                        t as int
                    } else {
                        s.pc + 1
                    },
                    ..s
                },
            ),
            Op::Dot(n) => StepOut::Next(
                MState {
                    out: s.out + Seq::new(n as nat, |k: int| cell_byte(s.cells[s.dp])),
                    pc: s.pc + 1,
                    ..s
                },
            ),
            Op::Comma(n) => if n > 0 && s.inpos < inp.len() {
                let stop = if s.inpos + n <= inp.len() {
                    s.inpos + n
                } else {
                    inp.len() as int
                };
                StepOut::Next(
                    MState {
                        cells: s.cells.update(s.dp, inp[stop - 1] as isize),
                        inpos: stop,
                        pc: s.pc + 1,
                        ..s
                    },
                )
            } else {
                StepOut::Next(MState { pc: s.pc + 1, ..s })
            },
            Op::NoOp => StepOut::Next(MState { pc: s.pc + 1, ..s }),
        }
    }
}

/// Where the machine stands after `n` steps from `s`: once halted or
/// failed, further steps change nothing.
pub open spec fn run_n(prog: Seq<Op>, inp: Seq<u8>, s: MState, n: nat) -> ExecOut
    decreases n,
{
    if n == 0 {
        ExecOut::Running(s)
    } else {
        match run_n(prog, inp, s, (n - 1) as nat) {
            ExecOut::Running(s2) => match step(prog, inp, s2) {
                StepOut::Next(s3) => ExecOut::Running(s3),
                StepOut::Halted => ExecOut::Halted(s2),
                StepOut::Crashed(e) => ExecOut::Crashed(e, s2),
            },
            done => done,
        }
    }
}

/// The machine's outcome is determined: once a step count reaches a halt or
/// a failure, every larger step count reports the same outcome. The step
/// counts the contracts below quantify over therefore pick out at most one
/// terminal result for a given program, input and starting state.
pub proof fn lemma_run_n_settled(prog: Seq<Op>, inp: Seq<u8>, s: MState, n: nat, m: nat)
    requires
        n <= m,
        !(run_n(prog, inp, s, n) is Running),
    ensures
        run_n(prog, inp, s, m) == run_n(prog, inp, s, n),
    decreases m,
{
    if m > n {
        lemma_run_n_settled(prog, inp, s, n, (m - 1) as nat);
    }
}

/// The staged constructor: a machine is built from a program, and the
/// instruction pointer, tape and data pointer may be preset before `build`.
#[derive(Debug)]
pub struct VMBuilder<T> {
    pub m_program: T,
    pub m_pc: usize,
    pub m_data: [isize; TAPE_LEN],
    pub m_dp: usize,
}

/// The machine: a program, an instruction pointer into it, the tape, and a
/// data pointer into the tape.
#[derive(Debug)]
pub struct VM {
    pub m_program: Vec<Op>,
    pub m_pc: usize,
    pub m_data: [isize; TAPE_LEN],
    pub m_dp: usize,
}

/// The builder state before a program is attached.
#[derive(Debug, Clone)]
pub struct NoOps;

pub type Ops = Vec<Op>;

impl VMBuilder<NoOps> {
    pub fn new() -> (r: VMBuilder<NoOps>)
        ensures
            r.m_pc == 0,
            r.m_dp == 0,
            forall|i: int| 0 <= i < TAPE_LEN ==> r.m_data@[i] == 0isize,
    {
        VMBuilder { m_program: NoOps, m_pc: 0, m_data: [0; TAPE_LEN], m_dp: 0 }
    }

    pub fn with_program(self, program: Ops) -> (r: VMBuilder<Ops>)
        ensures
            r.m_program == program,
            r.m_pc == self.m_pc,
            r.m_data == self.m_data,
            r.m_dp == self.m_dp,
    {
        VMBuilder { m_program: program, m_pc: self.m_pc, m_data: self.m_data, m_dp: self.m_dp }
    }
}

impl VMBuilder<Ops> {
    pub fn build(self) -> (r: VM)
        ensures
            r.m_program == self.m_program,
            r.m_pc == self.m_pc,
            r.m_data == self.m_data,
            r.m_dp == self.m_dp,
    {
        VM { m_program: self.m_program, m_pc: self.m_pc, m_data: self.m_data, m_dp: self.m_dp }
    }
}

impl<T> VMBuilder<T> {
    pub fn with_pc(self, idx: usize) -> (r: VMBuilder<T>)
        ensures
            r.m_pc == idx,
            r.m_program == self.m_program,
            r.m_data == self.m_data,
            r.m_dp == self.m_dp,
    {
        VMBuilder { m_pc: idx, ..self }
    }

    pub fn with_data(self, data: [isize; TAPE_LEN]) -> (r: VMBuilder<T>)
        ensures
            r.m_data == data,
            r.m_program == self.m_program,
            r.m_pc == self.m_pc,
            r.m_dp == self.m_dp,
    {
        VMBuilder { m_data: data, ..self }
    }

    pub fn with_dp(self, idx: usize) -> (r: VMBuilder<T>)
        ensures
            r.m_dp == idx,
            r.m_program == self.m_program,
            r.m_pc == self.m_pc,
            r.m_data == self.m_data,
    {
        VMBuilder { m_dp: idx, ..self }
    }
}

impl VM {
    pub fn new() -> (r: VMBuilder<NoOps>)
        ensures
            r.m_pc == 0,
            r.m_dp == 0,
            forall|i: int| 0 <= i < TAPE_LEN ==> r.m_data@[i] == 0isize,
    {
        VMBuilder::new()
    }

    /// The machine's one internal invariant: the data pointer selects a cell.
    pub open spec fn wf(self) -> bool {
        self.m_dp < TAPE_LEN
    }

    /// The machine's fields as a state of the semantics, at a given input
    /// position and with a given output so far.
    pub open spec fn state_with(self, inpos: int, out: Seq<u8>) -> MState {
        MState {
            cells: self.m_data@,
            dp: self.m_dp as int,
            pc: self.m_pc as int,
            inpos,
            out,
        }
    }

    /// Fetch-decode-execute for at most `budget` instructions, or until the
    /// instruction pointer leaves the program. `input` is the stream `Comma`
    /// reads from and `*inpos` how much of it is already consumed; the bytes
    /// `Dot` emits are appended to `output`. `Some(Ok(()))` means the machine
    /// halted; on `Some(Err(_))` it failed and keeps the state the failing
    /// instruction saw; on `None` the budget ran out first and a further call
    /// continues the run. Either way the end state is exactly what the step
    /// semantics reaches from the starting state.
    pub fn run_for(
        &mut self,
        budget: usize,
        input: &Vec<u8>,
        inpos: &mut usize,
        output: &mut Vec<u8>,
    ) -> (r: Option<Result<(), RuntimeError>>)
        requires
            old(self).wf(),
            *old(inpos) <= input@.len(),
        ensures
            final(self).wf(),
            final(self).m_program@ == old(self).m_program@,
            *final(inpos) <= input@.len(),
            ({
                let start = old(self).state_with(*old(inpos) as int, old(output)@);
                let end = final(self).state_with(*final(inpos) as int, final(output)@);
                match r {
                    Some(done) => match done {
                        Ok(()) => exists|n: nat|
                            run_n(old(self).m_program@, input@, start, n) == ExecOut::Halted(end),
                        Err(e) => exists|n: nat|
                            run_n(old(self).m_program@, input@, start, n) == ExecOut::Crashed(
                                e,
                                end,
                            ),
                    },
                    None => run_n(old(self).m_program@, input@, start, budget as nat)
                        == ExecOut::Running(end),
                }
            }),
    {
        let ghost prog = self.m_program@;
        let ghost init = self.state_with(*inpos as int, output@);
        let ghost mut steps: nat = 0;
        let mut left = budget;
        let program_len = self.m_program.len();
        while left > 0 && self.m_pc < program_len
            invariant
                prog == self.m_program@,
                prog == old(self).m_program@,
                program_len == prog.len(),
                init == old(self).state_with(*old(inpos) as int, old(output)@),
                self.m_dp < TAPE_LEN,
                *inpos <= input@.len(),
                left <= budget,
                steps + left == budget,
                run_n(prog, input@, init, steps) == ExecOut::Running(
                    self.state_with(*inpos as int, output@),
                ),
            decreases left,
        {
            let ghost cur = self.state_with(*inpos as int, output@);
            let op = self.m_program[self.m_pc];
            match op {
                Op::Plus(n) => {
                    let dp = self.m_dp;
                    self.m_data[dp] = self.m_data[dp].wrapping_add_unsigned(n);
                    self.m_pc = self.m_pc + 1;
                },
                Op::Minus(n) => {
                    let dp = self.m_dp;
                    self.m_data[dp] = self.m_data[dp].wrapping_add_unsigned((0usize).wrapping_sub(n));
                    self.m_pc = self.m_pc + 1;
                },
                Op::Left(n) => {
                    if n > self.m_dp {
                        proof {
                            steps = steps + 1;
                            assert(run_n(prog, input@, init, steps) == ExecOut::Crashed(
                                RuntimeError::PointerUnderflow,
                                cur,
                            ));
                        }
                        return Some(Err(RuntimeError::PointerUnderflow));
                    }
                    self.m_dp = self.m_dp - n;
                    self.m_pc = self.m_pc + 1;
                },
                Op::Right(n) => {
                    if n >= TAPE_LEN - self.m_dp {
                        proof {
                            steps = steps + 1;
                            assert(run_n(prog, input@, init, steps) == ExecOut::Crashed(
                                RuntimeError::PointerOverflow,
                                cur,
                            ));
                        }
                        return Some(Err(RuntimeError::PointerOverflow));
                    }
                    self.m_dp = self.m_dp + n;
                    self.m_pc = self.m_pc + 1;
                },
                Op::RightBracket(t) => {
                    if self.m_data[self.m_dp] != 0 {
                        self.m_pc = t;
                    } else {
                        self.m_pc = self.m_pc + 1;
                    }
                },
                Op::LeftBracket(t) => {
                    if self.m_data[self.m_dp] == 0 {
                        self.m_pc = t;
                    } else {
                        self.m_pc = self.m_pc + 1;
                    }
                },
                Op::Dot(n) => {
                    let b = byte_of_cell(self.m_data[self.m_dp]);
                    let ghost out0 = output@;
                    let mut k: usize = 0;
                    while k < n
                        invariant
                            k <= n,
                            output@ == out0 + Seq::new(k as nat, |x: int| b),
                        decreases n - k,
                    {
                        output.push(b);
                        k = k + 1;
                        proof {
                            assert(output@ =~= out0 + Seq::new(k as nat, |x: int| b));
                        }
                    }
                    proof {
                        assert(output@ =~= cur.out + Seq::new(
                            n as nat,
                            |x: int| cell_byte(cur.cells[cur.dp]),
                        ));
                    }
                    self.m_pc = self.m_pc + 1;
                },
                Op::Comma(n) => {
                    if n > 0 && *inpos < input.len() {
                        let avail = input.len() - *inpos;
                        let take = if n < avail {
                            n
                        } else {
                            avail
                        };
                        let dp = self.m_dp;
                        self.m_data[dp] = input[*inpos + take - 1] as isize;
                        *inpos = *inpos + take;
                    }
                    self.m_pc = self.m_pc + 1;
                },
                Op::NoOp => {
                    self.m_pc = self.m_pc + 1;
                },
            }
            proof {
                let nxt = self.state_with(*inpos as int, output@);
                assert(step(prog, input@, cur) == StepOut::Next(nxt));
                steps = steps + 1;
                assert(run_n(prog, input@, init, steps) == ExecOut::Running(nxt));
            }
            left = left - 1;
        }
        if self.m_pc >= program_len {
            proof {
                let cur = self.state_with(*inpos as int, output@);
                assert(step(prog, input@, cur) == StepOut::Halted);
                assert(run_n(prog, input@, init, steps + 1) == ExecOut::Halted(cur));
            }
            Some(Ok(()))
        } else {
            None
        }
    }
}

} // verus!
