use vstd::prelude::*;

use crate::parser::{compile_spec, parse_program, CompileError};
use crate::vm::{run_n, ExecOut, MState, RuntimeError, TAPE_LEN, VM};

verus! {

/// A failure of a whole compile-and-run cycle: either stage's error.
#[derive(Debug, Clone, Copy, PartialEq, Eq, Structural)]
pub enum RunError {
    Compile(CompileError),
    Runtime(RuntimeError),
}

/// The front door: one compile-and-run cycle over a fresh machine.
pub struct Driver;

impl Driver {
    /// Compile `source` and execute it on a zeroed machine for at most
    /// `budget` steps, reading from `input` and appending the emitted bytes
    /// to `output`. A compile error is returned before anything runs and
    /// leaves `output` untouched; otherwise the outcome and the output are
    /// those of the step semantics from the zeroed starting state, with
    /// `None` meaning the budget ran out while the machine was still
    /// running.
    pub fn run(source: &str, input: &Vec<u8>, output: &mut Vec<u8>, budget: usize) -> (r: Option<
        Result<(), RunError>,
    >)
        ensures
            match compile_spec(source@) {
                Err(ce) => r == Some(Err::<(), RunError>(RunError::Compile(ce))) && final(output)@
                    == old(output)@,
                Ok(ops) => ({
                    let start = MState {
                        cells: Seq::new(TAPE_LEN as nat, |i: int| 0isize),
                        dp: 0,
                        pc: 0,
                        inpos: 0,
                        out: old(output)@,
                    };
                    match r {
                        Some(done) => match done {
                            Ok(()) => exists|n: nat, s: MState|
                                run_n(ops, input@, start, n) == ExecOut::Halted(s) && s.out
                                    == final(output)@,
                            Err(e) => e matches RunError::Runtime(re) && exists|n: nat, s: MState|
                                run_n(ops, input@, start, n) == ExecOut::Crashed(re, s) && s.out
                                    == final(output)@,
                        },
                        None => exists|s: MState|
                            run_n(ops, input@, start, budget as nat) == ExecOut::Running(s)
                                && s.out == final(output)@,
                    }
                }),
            },
    {
        let ops = match parse_program(source) {
            Ok(v) => v,
            Err(e) => {
                return Some(Err(RunError::Compile(e)));
            },
        };
        let mut vm = VM::new().with_program(ops).build();
        let mut inpos: usize = 0;
        proof {
            assert(vm.state_with(0, output@) == MState {
                cells: Seq::new(TAPE_LEN as nat, |i: int| 0isize),
                dp: 0,
                pc: 0,
                inpos: 0,
                out: output@,
            }) by {
                assert(vm.m_data@ =~= Seq::new(TAPE_LEN as nat, |i: int| 0isize));
            }
        }
        let res = vm.run_for(budget, input, &mut inpos, output);
        match res {
            Some(done) => match done {
                Ok(()) => Some(Ok(())),
                Err(e) => Some(Err(RunError::Runtime(e))),
            },
            None => None,
        }
    }
}

} // verus!
