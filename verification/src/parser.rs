use vstd::prelude::*;
use vstd::string::StrSliceExecFns;

use crate::ops::Op;

verus! {

/// A failure of compilation. `UnexpectedTrailingInput` would mean the scanner
/// stopped before the end of the source; the scanner consumes every character,
/// so it is never produced and stands only as a guard of that internal
/// invariant.
#[derive(Debug, Clone, Copy, PartialEq, Eq, Structural)]
pub enum CompileError {
    UnmatchedOpenBracket,
    UnmatchedCloseBracket,
    UnexpectedTrailingInput,
}

/// Whitespace is transparent inside a run of equal primitive characters.
pub open spec fn is_space(c: char) -> bool {
    c == ' ' || c == '\t' || c == '\n' || c == '\r'
}

/// The six primitive characters that carry a run-length count.
pub open spec fn is_counted(c: char) -> bool {
    c == '+' || c == '-' || c == '<' || c == '>' || c == '.' || c == ','
}

/// Every character that is an instruction rather than comment text.
pub open spec fn is_primitive(c: char) -> bool {
    is_counted(c) || c == '[' || c == ']'
}

/// The instruction a run of `n` copies of the counted character `c` becomes.
pub open spec fn counted_op(c: char, n: usize) -> Op
    recommends
        is_counted(c),
{
    if c == '+' {
        Op::Plus(n)
    } else if c == '-' {
        Op::Minus(n)
    } else if c == '<' {
        Op::Left(n)
    } else if c == '>' {
        Op::Right(n)
    } else if c == '.' {
        Op::Dot(n)
    } else {
        Op::Comma(n)
    }
}

/// Index of the first non-whitespace character at or after `i`.
pub open spec fn space_end(s: Seq<char>, i: int) -> int
    decreases s.len() - i
        when 0 <= i <= s.len()
{
    if i < s.len() && is_space(s[i]) {
        space_end(s, i + 1)
    } else {
        i
    }
}

pub proof fn lemma_space_end(s: Seq<char>, i: int)
    requires
        0 <= i <= s.len(),
    ensures
        i <= space_end(s, i) <= s.len(),
    decreases s.len() - i,
{
    if i < s.len() && is_space(s[i]) {
        lemma_space_end(s, i + 1);
    }
}

/// Index just after the maximal whitespace-transparent run of `c` starting at
/// `i`: the run consumes repetitions of (whitespace, then `c`), and nothing
/// when no `c` follows the leading whitespace.
pub open spec fn run_end(s: Seq<char>, i: int, c: char) -> int
    decreases s.len() - i
        when 0 <= i <= s.len()
        via run_end_dec
{
    let w = space_end(s, i);
    if w < s.len() && s[w] == c {
        run_end(s, w + 1, c)
    } else {
        i
    }
}

#[via_fn]
proof fn run_end_dec(s: Seq<char>, i: int, c: char) {
    if 0 <= i <= s.len() {
        lemma_space_end(s, i);
    }
}

/// How many copies of `c` that run holds.
pub open spec fn run_cnt(s: Seq<char>, i: int, c: char) -> nat
    decreases s.len() - i
        when 0 <= i <= s.len()
        via run_cnt_dec
{
    let w = space_end(s, i);
    if w < s.len() && s[w] == c {
        1 + run_cnt(s, w + 1, c)
    } else {
        0
    }
}

#[via_fn]
proof fn run_cnt_dec(s: Seq<char>, i: int, c: char) {
    if 0 <= i <= s.len() {
        lemma_space_end(s, i);
    }
}

pub proof fn lemma_run_end(s: Seq<char>, i: int, c: char)
    requires
        0 <= i <= s.len(),
    ensures
        i <= run_end(s, i, c) <= s.len(),
    decreases s.len() - i,
{
    lemma_space_end(s, i);
    let w = space_end(s, i);
    if w < s.len() && s[w] == c {
        lemma_run_end(s, w + 1, c);
    }
}

pub proof fn lemma_run_end_pos(s: Seq<char>, i: int, c: char)
    requires
        0 <= i < s.len(),
        s[i] == c,
        !is_space(c),
    ensures
        i < run_end(s, i, c) <= s.len(),
{
    assert(space_end(s, i) == i);
    lemma_run_end(s, i + 1, c);
}

/// The token sequence of the source from position `i` on: runs of equal
/// counted characters collapse to one instruction carrying their number,
/// each bracket becomes one instruction with a placeholder target, and
/// comment text (any other character) is dropped.
pub open spec fn tok_from(s: Seq<char>, i: int) -> Seq<Op>
    decreases s.len() - i
        when 0 <= i <= s.len()
        via tok_from_dec
{
    if i >= s.len() {
        Seq::empty()
    } else {
        let c = s[i];
        if c == '[' {
            seq![Op::LeftBracket(0)] + tok_from(s, i + 1)
        } else if c == ']' {
            seq![Op::RightBracket(0)] + tok_from(s, i + 1)
        } else if is_counted(c) {
            seq![counted_op(c, run_cnt(s, i, c) as usize)] + tok_from(s, run_end(s, i, c))
        } else {
            tok_from(s, i + 1)
        }
    }
}

#[via_fn]
proof fn tok_from_dec(s: Seq<char>, i: int) {
    if 0 <= i < s.len() {
        let c = s[i];
        if c != '[' && c != ']' && is_counted(c) {
            lemma_run_end_pos(s, i, c);
        }
    }
}

/// One step per instruction of the jump-resolution scan: a stack holds the
/// indices of the open brackets still waiting for their close. An open
/// bracket pushes its index; a close bracket pops one and the two targets are
/// patched to point at each other; a close with an empty stack, or an open
/// left on the stack at the end, is an unmatched bracket.
pub open spec fn resolve_from(ops: Seq<Op>, i: int, stack: Seq<int>) -> Result<Seq<Op>, CompileError>
    decreases ops.len() - i
        when 0 <= i <= ops.len() && (forall|k: int|
            0 <= k < stack.len() ==> 0 <= #[trigger] stack[k] < i)
{
    if i >= ops.len() {
        if stack.len() == 0 {
            Ok(ops)
        } else {
            Err(CompileError::UnmatchedOpenBracket)
        }
    } else {
        match ops[i] {
            Op::LeftBracket(_) => resolve_from(ops, i + 1, stack.push(i)),
            Op::RightBracket(_) => {
                if stack.len() == 0 {
                    Err(CompileError::UnmatchedCloseBracket)
                } else {
                    let j = stack.last();
                    let patched = ops.update(
                        j,
                        Op::LeftBracket(#[verifier::truncate] (i as usize)),
                    ).update(i, Op::RightBracket(#[verifier::truncate] (j as usize)));
                    resolve_from(patched, i + 1, stack.drop_last())
                }
            },
            _ => resolve_from(ops, i + 1, stack),
        }
    }
}

/// What compilation returns on a given source text: its token sequence with
/// every bracket's jump target resolved, or the error the scan hits first.
pub open spec fn compile_spec(s: Seq<char>) -> Result<Seq<Op>, CompileError> {
    resolve_from(tok_from(s, 0), 0, Seq::empty())
}

fn space_char(c: char) -> (b: bool)
    ensures
        b == is_space(c),
{
    c == ' ' || c == '\t' || c == '\n' || c == '\r'
}

fn counted_char(c: char) -> (b: bool)
    ensures
        b == is_counted(c),
{
    c == '+' || c == '-' || c == '<' || c == '>' || c == '.' || c == ','
}

fn make_counted(c: char, n: usize) -> (op: Op)
    requires
        is_counted(c),
    ensures
        op == counted_op(c, n),
{
    if c == '+' {
        Op::Plus(n)
    } else if c == '-' {
        Op::Minus(n)
    } else if c == '<' {
        Op::Left(n)
    } else if c == '>' {
        Op::Right(n)
    } else if c == '.' {
        Op::Dot(n)
    } else {
        Op::Comma(n)
    }
}

/// Tokenization alone: the run-length-merged instructions of the source,
/// comment spans already dropped, bracket targets still placeholders. The
/// scanner consumes every character, so the error is never returned; the
/// `Result` keeps the internal `UnexpectedTrailingInput` failure in the
/// signature.
pub fn parse_ops(input: &str) -> (r: Result<Vec<Op>, CompileError>)
    ensures
        r matches Ok(v) && v@ == tok_from(input@, 0),
{
    let s_len = input.unicode_len();
    let mut out: Vec<Op> = Vec::new();
    let mut i: usize = 0;
    while i < s_len
        invariant
            s_len == input@.len(),
            i <= s_len,
            tok_from(input@, 0) == out@ + tok_from(input@, i as int),
        decreases s_len - i,
    {
        let ghost s = input@;
        let ghost i0 = i as int;
        let ghost out0 = out@;
        let c = input.get_char(i);
        if c == '[' {
            out.push(Op::LeftBracket(0));
            i = i + 1;
            proof {
                assert(out@ + tok_from(s, i as int) =~= out0 + tok_from(s, i0));
            }
        } else if c == ']' {
            out.push(Op::RightBracket(0));
            i = i + 1;
            proof {
                assert(out@ + tok_from(s, i as int) =~= out0 + tok_from(s, i0));
            }
        } else if counted_char(c) {
            let mut cnt: usize = 0;
            let mut j: usize = i;
            loop
                invariant
                    s == input@,
                    s_len == s.len(),
                    is_counted(c),
                    0 <= i0 <= j <= s_len,
                    cnt <= j,
                    run_cnt(s, i0, c) == cnt + run_cnt(s, j as int, c),
                    run_end(s, i0, c) == run_end(s, j as int, c),
                ensures
                    s == input@,
                    is_counted(c),
                    0 <= i0 <= j <= s_len,
                    run_cnt(s, i0, c) == cnt,
                    run_end(s, i0, c) == j as int,
                decreases s_len - j,
            {
                let mut k: usize = j;
                while k < s_len && space_char(input.get_char(k))
                    invariant
                        s == input@,
                        s_len == s.len(),
                        j <= k <= s_len,
                        space_end(s, j as int) == space_end(s, k as int),
                    decreases s_len - k,
                {
                    k = k + 1;
                }
                assert(space_end(s, j as int) == k as int);
                if k < s_len {
                    let ck = input.get_char(k);
                    if ck == c {
                        cnt = cnt + 1;
                        j = k + 1;
                    } else {
                        assert(run_cnt(s, j as int, c) == 0);
                        assert(run_end(s, j as int, c) == j as int);
                        break ;
                    }
                } else {
                    assert(run_cnt(s, j as int, c) == 0);
                    assert(run_end(s, j as int, c) == j as int);
                    break ;
                }
            }
            out.push(make_counted(c, cnt));
            i = j;
            proof {
                assert(out@ + tok_from(s, i as int) =~= out0 + tok_from(s, i0));
            }
        } else {
            i = i + 1;
            proof {
                assert(tok_from(s, i0) == tok_from(s, i as int));
            }
        }
    }
    proof {
        assert(tok_from(input@, i as int) =~= Seq::<Op>::empty());
        assert(out@ + tok_from(input@, i as int) =~= out@);
    }
    Ok(out)
}

/// Compilation: tokenize, then resolve every bracket's jump target. On
/// success every `LeftBracket` and its matching `RightBracket` carry each
/// other's index; an unmatched bracket of either kind is an error.
pub fn parse_program(input: &str) -> (r: Result<Vec<Op>, CompileError>)
    ensures
        match r {
            Ok(v) => compile_spec(input@) matches Ok(o) && o == v@ && crate::brackets::resolved(
                v@,
            ),
            Err(e) => compile_spec(input@) == Err::<Seq<Op>, CompileError>(e),
        },
{
    let mut ops = match parse_ops(input) {
        Ok(v) => v,
        Err(e) => {
            return Err(e);
        },
    };
    let ghost toks = ops@;
    let mut stack: Vec<usize> = Vec::new();
    let ghost mut gstack: Seq<int> = Seq::empty();
    let mut idx: usize = 0;
    while idx < ops.len()
        invariant
            toks == tok_from(input@, 0),
            ops@.len() == toks.len(),
            idx <= ops@.len(),
            stack@.len() == gstack.len(),
            forall|k: int| 0 <= k < gstack.len() ==> #[trigger] gstack[k] == stack@[k] as int,
            forall|k: int| 0 <= k < gstack.len() ==> 0 <= #[trigger] gstack[k] < idx as int,
            forall|k: int| 0 <= k < gstack.len() ==> ops@[#[trigger] gstack[k]] is LeftBracket,
            resolve_from(toks, 0, Seq::empty()) == resolve_from(ops@, idx as int, gstack),
        decreases ops@.len() - idx,
    {
        let ghost ops_before = ops@;
        let op = ops[idx];
        match op {
            Op::LeftBracket(_) => {
                stack.push(idx);
                proof {
                    gstack = gstack.push(idx as int);
                }
            },
            Op::RightBracket(_) => {
                match stack.pop() {
                    Some(j) => {
                        let mut left = ops[j];
                        left.set_jump(idx);
                        ops[j] = left;
                        let mut right = ops[idx];
                        right.set_jump(j);
                        ops[idx] = right;
                        proof {
                            gstack = gstack.drop_last();
                            assert(ops@ =~= ops_before.update(j as int, Op::LeftBracket(idx)).update(
                                idx as int,
                                Op::RightBracket(j),
                            ));
                        }
                    },
                    None => {
                        proof {
                            assert(resolve_from(ops@, idx as int, gstack) == Err::<
                                Seq<Op>,
                                CompileError,
                            >(CompileError::UnmatchedCloseBracket));
                        }
                        return Err(CompileError::UnmatchedCloseBracket);
                    },
                }
            },
            _ => {},
        }
        idx = idx + 1;
    }
    if stack.len() > 0 {
        return Err(CompileError::UnmatchedOpenBracket);
    }
    proof {
        crate::brackets::lemma_bracket_matching(input@, ops@);
    }
    Ok(ops)
}

/// Comment stripping: a text holding no primitive character compiles to the
/// empty program.
pub proof fn lemma_comment_only(s: Seq<char>)
    requires
        forall|k: int| 0 <= k < s.len() ==> !is_primitive(#[trigger] s[k]),
    ensures
        compile_spec(s) == Ok::<Seq<Op>, CompileError>(Seq::empty()),
{
    lemma_comment_only_from(s, 0);
    assert(resolve_from(Seq::empty(), 0, Seq::empty()) == Ok::<Seq<Op>, CompileError>(
        Seq::empty(),
    ));
}

proof fn lemma_comment_only_from(s: Seq<char>, i: int)
    requires
        0 <= i <= s.len(),
        forall|k: int| 0 <= k < s.len() ==> !is_primitive(#[trigger] s[k]),
    ensures
        tok_from(s, i) == Seq::<Op>::empty(),
    decreases s.len() - i,
{
    if i < s.len() {
        lemma_comment_only_from(s, i + 1);
    }
}

/// Compilation is a pure function of the source text: compiling the same
/// text twice yields structurally identical results.
pub proof fn lemma_compile_deterministic(s1: Seq<char>, s2: Seq<char>)
    requires
        s1 == s2,
    ensures
        compile_spec(s1) == compile_spec(s2),
{
}

} // verus!
