use vstd::prelude::*;

use crate::ops::{is_close, is_open, jump_of, Op};
use crate::parser::{compile_spec, resolve_from, CompileError};

verus! {

/// How many open brackets stand in `ops[a..b)`.
pub open spec fn opens(ops: Seq<Op>, a: int, b: int) -> int
    decreases b - a
        when a <= b
{
    if b <= a {
        0
    } else {
        opens(ops, a, b - 1) + (if is_open(ops[b - 1]) {
            1int
        } else {
            0int
        })
    }
}

/// How many close brackets stand in `ops[a..b)`.
pub open spec fn closes(ops: Seq<Op>, a: int, b: int) -> int
    decreases b - a
        when a <= b
{
    if b <= a {
        0
    } else {
        closes(ops, a, b - 1) + (if is_close(ops[b - 1]) {
            1int
        } else {
            0int
        })
    }
}

/// The brackets in `ops[a..b)` pair up among themselves: as many opens as
/// closes, and no prefix closes more than it opened.
pub open spec fn balanced(ops: Seq<Op>, a: int, b: int) -> bool {
    &&& opens(ops, a, b) == closes(ops, a, b)
    &&& forall|k: int| a <= k <= b ==> #[trigger] closes(ops, a, k) <= opens(ops, a, k)
}

/// `j` is the syntactic match of the open bracket at `i`: the close bracket
/// whose span back to `i` encloses only brackets that pair up among
/// themselves.
pub open spec fn is_match(ops: Seq<Op>, i: int, j: int) -> bool {
    &&& 0 <= i < j < ops.len()
    &&& is_open(ops[i])
    &&& is_close(ops[j])
    &&& balanced(ops, i + 1, j)
}

/// Every bracket's target is the index of its syntactic match, and the two
/// point at each other.
pub open spec fn resolved(r: Seq<Op>) -> bool {
    &&& forall|i: int|
        0 <= i < r.len() && is_open(#[trigger] r[i]) ==> is_match(r, i, jump_of(r[i]) as int) && r[jump_of(
            r[i],
        ) as int] == Op::RightBracket(i as usize)
    &&& forall|j: int|
        0 <= j < r.len() && is_close(#[trigger] r[j]) ==> is_match(r, jump_of(r[j]) as int, j)
            && r[jump_of(r[j]) as int] == Op::LeftBracket(j as usize)
}

proof fn lemma_counts_split(ops: Seq<Op>, a: int, b: int, c: int)
    requires
        a <= b <= c,
    ensures
        opens(ops, a, c) == opens(ops, a, b) + opens(ops, b, c),
        closes(ops, a, c) == closes(ops, a, b) + closes(ops, b, c),
    decreases c - b,
{
    if c > b {
        lemma_counts_split(ops, a, b, c - 1);
    }
}

proof fn lemma_counts_same(x: Seq<Op>, y: Seq<Op>, a: int, b: int)
    requires
        a <= b,
        forall|p: int|
            a <= p < b ==> (is_open(#[trigger] x[p]) == is_open(y[p]) && is_close(x[p]) == is_close(
                y[p],
            )),
    ensures
        opens(x, a, b) == opens(y, a, b),
        closes(x, a, b) == closes(y, a, b),
    decreases b - a,
{
    if b > a {
        lemma_counts_same(x, y, a, b - 1);
    }
}

proof fn lemma_balanced_same(x: Seq<Op>, y: Seq<Op>, a: int, b: int)
    requires
        a <= b,
        balanced(x, a, b),
        forall|p: int|
            a <= p < b ==> (is_open(#[trigger] x[p]) == is_open(y[p]) && is_close(x[p]) == is_close(
                y[p],
            )),
    ensures
        balanced(y, a, b),
{
    lemma_counts_same(x, y, a, b);
    assert forall|k: int| a <= k <= b implies #[trigger] closes(y, a, k) <= opens(y, a, k) by {
        lemma_counts_same(x, y, a, k);
    }
}

proof fn lemma_balanced_extend(ops: Seq<Op>, a: int, b: int)
    requires
        a <= b,
        balanced(ops, a, b),
        !is_open(ops[b]),
        !is_close(ops[b]),
    ensures
        balanced(ops, a, b + 1),
{
    assert(opens(ops, a, b + 1) == opens(ops, a, b));
    assert(closes(ops, a, b + 1) == closes(ops, a, b));
}

/// Wrapping a balanced span in one more bracket pair keeps it balanced.
proof fn lemma_balanced_wrap(ops: Seq<Op>, a: int, j: int, i: int)
    requires
        a <= j < i,
        balanced(ops, a, j),
        balanced(ops, j + 1, i),
        is_open(ops[j]),
        is_close(ops[i]),
    ensures
        balanced(ops, a, i + 1),
{
    assert forall|k: int| a <= k <= i + 1 implies #[trigger] closes(ops, a, k) <= opens(
        ops,
        a,
        k,
    ) by {
        if k <= j {
        } else {
            lemma_counts_split(ops, a, j + 1, k);
            assert(opens(ops, a, j + 1) == opens(ops, a, j) + 1);
            assert(closes(ops, a, j + 1) == closes(ops, a, j));
            if k <= i {
                assert(closes(ops, j + 1, k) <= opens(ops, j + 1, k));
            } else {
                assert(closes(ops, j + 1, i + 1) == closes(ops, j + 1, i) + 1);
                assert(opens(ops, j + 1, i + 1) == opens(ops, j + 1, i));
            }
        }
    }
    lemma_counts_split(ops, a, j + 1, i + 1);
    assert(closes(ops, j + 1, i + 1) == closes(ops, j + 1, i) + 1);
    assert(opens(ops, j + 1, i + 1) == opens(ops, j + 1, i));
    assert(opens(ops, a, j + 1) == opens(ops, a, j) + 1);
    assert(closes(ops, a, j + 1) == closes(ops, a, j));
}

/// The indices on the resolution stack: all open brackets before `i`, in
/// increasing order.
spec fn stack_ok(ops: Seq<Op>, i: int, stack: Seq<int>) -> bool {
    &&& forall|k: int|
        0 <= k < stack.len() ==> 0 <= #[trigger] stack[k] < i && is_open(ops[stack[k]])
    &&& forall|k1: int, k2: int| 0 <= k1 < k2 < stack.len() ==> stack[k1] < stack[k2]
}

/// Every bracket before `i` that is not still on the stack is already
/// paired with its syntactic match, the two targets pointing at each other.
spec fn done_ok(ops: Seq<Op>, i: int, stack: Seq<int>) -> bool {
    &&& forall|p: int|
        0 <= p < i && is_open(#[trigger] ops[p]) && !stack.contains(p) ==> jump_of(ops[p]) < i
            && is_match(ops, p, jump_of(ops[p]) as int) && ops[jump_of(ops[p]) as int]
            == Op::RightBracket(p as usize)
    &&& forall|p: int|
        0 <= p < i && is_close(#[trigger] ops[p]) ==> is_match(ops, jump_of(ops[p]) as int, p)
            && ops[jump_of(ops[p]) as int] == Op::LeftBracket(p as usize) && !stack.contains(
            jump_of(ops[p]) as int,
        )
}

/// Between consecutive stack entries, before the first, and above the last
/// up to `i`, the brackets pair up among themselves.
spec fn segs_ok(ops: Seq<Op>, i: int, stack: Seq<int>) -> bool {
    if stack.len() == 0 {
        balanced(ops, 0, i)
    } else {
        &&& balanced(ops, 0, stack[0])
        &&& forall|k: int|
            0 <= k < stack.len() - 1 ==> balanced(ops, #[trigger] stack[k] + 1, stack[k + 1])
        &&& balanced(ops, stack.last() + 1, i)
    }
}

#[verifier::rlimit(100)]
proof fn lemma_resolve_resolved(ops: Seq<Op>, i: int, stack: Seq<int>, r: Seq<Op>)
    requires
        ops.len() <= usize::MAX,
        0 <= i <= ops.len(),
        stack_ok(ops, i, stack),
        done_ok(ops, i, stack),
        segs_ok(ops, i, stack),
        resolve_from(ops, i, stack) == Ok::<Seq<Op>, CompileError>(r),
    ensures
        resolved(r),
    decreases ops.len() - i,
{
    if i >= ops.len() {
        assert(stack.len() == 0);
        assert(r == ops);
    } else {
        match ops[i] {
            Op::LeftBracket(_) => {
                let stack2 = stack.push(i);
                assert(stack2.last() == i && stack2.len() == stack.len() + 1);
                assert forall|p: int| 0 <= p < i + 1 && is_close(#[trigger] ops[p]) implies
                    is_match(ops, jump_of(ops[p]) as int, p) && ops[jump_of(ops[p]) as int]
                    == Op::LeftBracket(p as usize) && !stack2.contains(jump_of(ops[p]) as int) by {
                    assert(p < i);
                    assert(!stack.contains(jump_of(ops[p]) as int));
                    if stack2.contains(jump_of(ops[p]) as int) {
                        let w = choose|w: int|
                            0 <= w < stack2.len() && stack2[w] == jump_of(ops[p]) as int;
                        assert(w == stack.len());
                        assert(jump_of(ops[p]) as int == i);
                        assert(is_match(ops, i, p));
                    }
                }
                assert forall|p: int|
                    0 <= p < i + 1 && is_open(#[trigger] ops[p]) && !stack2.contains(p) implies
                    jump_of(ops[p]) < i + 1 && is_match(ops, p, jump_of(ops[p]) as int) && ops[
                    jump_of(ops[p]) as int] == Op::RightBracket(p as usize) by {
                    assert(p != i) by {
                        assert(stack2[stack2.len() - 1] == i);
                    }
                    assert(!stack.contains(p)) by {
                        if stack.contains(p) {
                            let w = choose|w: int| 0 <= w < stack.len() && stack[w] == p;
                            assert(stack2[w] == p);
                        }
                    }
                }
                assert(balanced(ops, i + 1, i + 1));
                assert(segs_ok(ops, i + 1, stack2)) by {
                    if stack.len() > 0 {
                        assert forall|k: int| 0 <= k < stack2.len() - 1 implies balanced(
                            ops,
                            #[trigger] stack2[k] + 1,
                            stack2[k + 1],
                        ) by {
                            if k < stack.len() - 1 {
                                assert(balanced(ops, stack[k] + 1, stack[k + 1]));
                                assert(stack2[k] == stack[k] && stack2[k + 1] == stack[k + 1]);
                            } else {
                                assert(stack2[k] == stack.last() && stack2[k + 1] == i);
                                assert(balanced(ops, stack.last() + 1, i));
                            }
                        }
                    }
                }
                lemma_resolve_resolved(ops, i + 1, stack2, r);
            },
            Op::RightBracket(_) => {
                assert(stack.len() > 0);
                let j = stack.last();
                let patched = ops.update(j, Op::LeftBracket(i as usize)).update(
                    i,
                    Op::RightBracket(j as usize),
                );
                let dstack = stack.drop_last();
                assert(patched.len() == ops.len());
                assert(patched[j] == Op::LeftBracket(i as usize));
                assert(patched[i] == Op::RightBracket(j as usize));
                assert(forall|p: int|
                    0 <= p < ops.len() && p != i && p != j ==> patched[p] == ops[p]);
                assert(forall|p: int|
                    0 <= p < ops.len() ==> (is_open(#[trigger] patched[p]) == is_open(ops[p])
                        && is_close(patched[p]) == is_close(ops[p])));
                // the top segment becomes the matched body of the new pair
                assert(balanced(ops, j + 1, i));
                assert(balanced(patched, j + 1, i)) by {
                    lemma_balanced_same(ops, patched, j + 1, i);
                }
                assert(is_match(patched, j, i));
                assert((j as usize) as int == j && (i as usize) as int == i);
                // entries below the popped one are untouched and still open
                assert(stack_ok(patched, i + 1, dstack)) by {
                    assert forall|k: int| 0 <= k < dstack.len() implies 0 <= #[trigger] dstack[k]
                        < i + 1 && is_open(patched[dstack[k]]) by {
                        assert(dstack[k] == stack[k]);
                        assert(stack[k] < stack.last());
                    }
                }
                assert(done_ok(patched, i + 1, dstack)) by {
                    assert forall|p: int|
                        0 <= p < i + 1 && is_open(#[trigger] patched[p]) && !dstack.contains(
                            p,
                        ) implies jump_of(patched[p]) < i + 1 && is_match(
                        patched,
                        p,
                        jump_of(patched[p]) as int,
                    ) && patched[jump_of(patched[p]) as int] == Op::RightBracket(p as usize) by {
                        if p == j {
                        } else if p == i {
                            assert(false);
                        } else {
                            assert(patched[p] == ops[p]);
                            assert(!stack.contains(p)) by {
                                if stack.contains(p) {
                                    let w = choose|w: int| 0 <= w < stack.len() && stack[w] == p;
                                    assert(w < stack.len() - 1) by {
                                        assert(stack[stack.len() - 1] == j);
                                    }
                                    assert(dstack[w] == p);
                                }
                            }
                            let t = jump_of(ops[p]) as int;
                            assert(t < i && is_match(ops, p, t) && ops[t] == Op::RightBracket(
                                p as usize,
                            ));
                            assert(t != j) by {
                                assert(is_open(ops[j]));
                            }
                            assert(patched[t] == ops[t]);
                            lemma_balanced_same(ops, patched, p + 1, t);
                        }
                    }
                    assert forall|p: int| 0 <= p < i + 1 && is_close(#[trigger] patched[p]) implies
                        is_match(patched, jump_of(patched[p]) as int, p) && patched[jump_of(
                        patched[p],
                    ) as int] == Op::LeftBracket(p as usize) && !dstack.contains(
                        jump_of(patched[p]) as int,
                    ) by {
                        if p == i {
                            assert(jump_of(patched[p]) as int == j);
                            assert(!dstack.contains(j)) by {
                                if dstack.contains(j) {
                                    let w = choose|w: int| 0 <= w < dstack.len() && dstack[w] == j;
                                    assert(stack[w] == j && stack[w] < stack.last());
                                }
                            }
                        } else {
                            assert(p < i);
                            assert(p != j);
                            assert(patched[p] == ops[p]);
                            let u = jump_of(ops[p]) as int;
                            assert(is_match(ops, u, p) && ops[u] == Op::LeftBracket(p as usize)
                                && !stack.contains(u));
                            assert(u != j);
                            assert(u != i) by {
                                assert(u < p < i);
                            }
                            assert(patched[u] == ops[u]);
                            lemma_balanced_same(ops, patched, u + 1, p);
                            assert(!dstack.contains(u)) by {
                                if dstack.contains(u) {
                                    let w = choose|w: int| 0 <= w < dstack.len() && dstack[w] == u;
                                    assert(stack[w] == u);
                                }
                            }
                        }
                    }
                }
                assert(segs_ok(patched, i + 1, dstack)) by {
                    if dstack.len() == 0 {
                        assert(stack.len() == 1);
                        assert(balanced(ops, 0, j));
                        lemma_balanced_same(ops, patched, 0, j);
                        lemma_balanced_wrap(patched, 0, j, i);
                    } else {
                        let a = dstack.last();
                        assert(a == stack[stack.len() - 2]);
                        assert(balanced(ops, a + 1, j)) by {
                            assert(balanced(ops, stack[stack.len() - 2] + 1, stack[stack.len()
                                - 1]));
                        }
                        lemma_balanced_same(ops, patched, a + 1, j);
                        lemma_balanced_wrap(patched, a + 1, j, i);
                        assert(balanced(ops, 0, stack[0]));
                        assert(dstack[0] == stack[0]);
                        lemma_balanced_same(ops, patched, 0, stack[0]);
                        assert forall|k: int| 0 <= k < dstack.len() - 1 implies balanced(
                            patched,
                            #[trigger] dstack[k] + 1,
                            dstack[k + 1],
                        ) by {
                            assert(dstack[k] == stack[k] && dstack[k + 1] == stack[k + 1]);
                            assert(balanced(ops, stack[k] + 1, stack[k + 1]));
                            assert(stack[k + 1] <= j) by {
                                assert(stack[k + 1] < stack.last() || k + 1 == stack.len() - 1);
                            }
                            lemma_balanced_same(ops, patched, stack[k] + 1, stack[k + 1]);
                        }
                    }
                }
                lemma_resolve_resolved(patched, i + 1, dstack, r);
            },
            _ => {
                assert(!is_open(ops[i]) && !is_close(ops[i]));
                assert(segs_ok(ops, i + 1, stack)) by {
                    if stack.len() == 0 {
                        lemma_balanced_extend(ops, 0, i);
                    } else {
                        assert(stack.last() + 1 <= i) by {
                            assert(stack[stack.len() - 1] < i);
                        }
                        lemma_balanced_extend(ops, stack.last() + 1, i);
                    }
                }
                lemma_resolve_resolved(ops, i + 1, stack, r);
            },
        }
    }
}

/// An open bracket has at most one syntactic match, so `resolved` programs
/// point each open bracket at the close bracket.
pub proof fn lemma_match_unique(ops: Seq<Op>, i: int, j1: int, j2: int)
    requires
        is_match(ops, i, j1),
        is_match(ops, i, j2),
    ensures
        j1 == j2,
{
    if j1 < j2 {
        assert(closes(ops, i + 1, j1 + 1) == closes(ops, i + 1, j1) + 1);
        assert(opens(ops, i + 1, j1 + 1) == opens(ops, i + 1, j1));
        assert(closes(ops, i + 1, j1 + 1) <= opens(ops, i + 1, j1 + 1));
    } else if j2 < j1 {
        assert(closes(ops, i + 1, j2 + 1) == closes(ops, i + 1, j2) + 1);
        assert(opens(ops, i + 1, j2 + 1) == opens(ops, i + 1, j2));
        assert(closes(ops, i + 1, j2 + 1) <= opens(ops, i + 1, j2 + 1));
    }
}

/// Bracket matching: in a compiled program, the target of every open
/// bracket is the index of its syntactic matching close bracket and the
/// two brackets carry each other's index, for every source text that
/// compiles.
pub proof fn lemma_bracket_matching(s: Seq<char>, r: Seq<Op>)
    requires
        compile_spec(s) == Ok::<Seq<Op>, CompileError>(r),
        r.len() <= usize::MAX,
    ensures
        resolved(r),
{
    let toks = crate::parser::tok_from(s, 0);
    lemma_resolve_len(toks, 0, Seq::empty(), r);
    assert(balanced(toks, 0, 0));
    lemma_resolve_resolved(toks, 0, Seq::empty(), r);
}

/// Resolution never changes the number of instructions.
proof fn lemma_resolve_len(ops: Seq<Op>, i: int, stack: Seq<int>, r: Seq<Op>)
    requires
        0 <= i <= ops.len(),
        forall|k: int| 0 <= k < stack.len() ==> 0 <= #[trigger] stack[k] < i,
        resolve_from(ops, i, stack) == Ok::<Seq<Op>, CompileError>(r),
    ensures
        r.len() == ops.len(),
    decreases ops.len() - i,
{
    if i >= ops.len() {
    } else {
        match ops[i] {
            Op::LeftBracket(_) => {
                lemma_resolve_len(ops, i + 1, stack.push(i), r);
            },
            Op::RightBracket(_) => {
                let j = stack.last();
                let patched = ops.update(j, Op::LeftBracket(i as usize)).update(
                    i,
                    Op::RightBracket(j as usize),
                );
                lemma_resolve_len(patched, i + 1, stack.drop_last(), r);
            },
            _ => {
                lemma_resolve_len(ops, i + 1, stack, r);
            },
        }
    }
}

} // verus!
