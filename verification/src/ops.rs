use vstd::prelude::*;

verus! {

/// One instruction of the tape machine.
///
/// The payload of `Plus`, `Minus`, `Left`, `Right`, `Dot` and `Comma` is a
/// run-length count: how many times the primitive character was repeated in
/// the source. The payload of `LeftBracket` and `RightBracket` is the jump
/// target, the index of the matching bracket in the compiled program; it is
/// a placeholder until jump resolution patches it. `NoOp` stands for a span
/// of comment text and is dropped before jump resolution.
#[derive(Debug, Clone, Copy, PartialEq, Eq, Structural)]
pub enum Op {
    Plus(usize),
    Minus(usize),
    Left(usize),
    Right(usize),
    RightBracket(usize),
    LeftBracket(usize),
    Dot(usize),
    Comma(usize),
    NoOp,
}

/// Whether an instruction is an open bracket.
pub open spec fn is_open(op: Op) -> bool {
    op is LeftBracket
}

/// Whether an instruction is a close bracket.
pub open spec fn is_close(op: Op) -> bool {
    op is RightBracket
}

/// The jump target a bracket instruction carries.
pub open spec fn jump_of(op: Op) -> usize
    recommends
        is_open(op) || is_close(op),
{
    match op {
        Op::LeftBracket(t) => t,
        Op::RightBracket(t) => t,
        _ => 0,
    }
}

impl Op {
    /// Replace the jump target of a bracket instruction; only brackets carry one.
    pub fn set_jump(&mut self, jump: usize)
        requires
            *old(self) is RightBracket || *old(self) is LeftBracket,
        ensures
            *old(self) is RightBracket ==> *final(self) == Op::RightBracket(jump),
            *old(self) is LeftBracket ==> *final(self) == Op::LeftBracket(jump),
    {
        let next = match *self {
            Op::RightBracket(_) => Op::RightBracket(jump),
            Op::LeftBracket(_) => Op::LeftBracket(jump),
            other => other,
        };
        *self = next;
    }
}

} // verus!
