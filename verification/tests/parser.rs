use tapevm::ops::Op;
use tapevm::parser::{parse_ops, parse_program, CompileError};

#[test]
fn ops() {
    assert_eq!(parse_ops("+++"), Ok(vec![Op::Plus(3)]));

    assert_eq!(parse_ops("---"), Ok(vec![Op::Minus(3)]));

    assert_eq!(parse_ops(">>>"), Ok(vec![Op::Right(3)]));

    assert_eq!(parse_ops("<<<"), Ok(vec![Op::Left(3)]));

    assert_eq!(
        parse_ops("[[]]"),
        Ok(vec![
            Op::LeftBracket(0),
            Op::LeftBracket(0),
            Op::RightBracket(0),
            Op::RightBracket(0)
        ])
    );
}

#[test]
fn program() {
    assert_eq!(parse_program("+++---"), Ok(vec![Op::Plus(3), Op::Minus(3)]));

    assert_eq!(
        parse_program("+++---<<<>>>"),
        Ok(vec![Op::Plus(3), Op::Minus(3), Op::Left(3), Op::Right(3)])
    );

    assert_eq!(
        parse_program("+++---<<<>>>[[]]"),
        Ok(vec![
            Op::Plus(3),
            Op::Minus(3),
            Op::Left(3),
            Op::Right(3),
            Op::LeftBracket(7),
            Op::LeftBracket(6),
            Op::RightBracket(5),
            Op::RightBracket(4)
        ])
    );
}

#[test]
fn run_length_merge() {
    assert_eq!(parse_program("+++"), Ok(vec![Op::Plus(3)]));
    assert_eq!(parse_program("+ + +"), Ok(vec![Op::Plus(3)]));
    assert_eq!(
        parse_program("+++>+++"),
        Ok(vec![Op::Plus(3), Op::Right(1), Op::Plus(3)])
    );
}

#[test]
fn whitespace_transparent_in_runs() {
    assert_eq!(parse_program("+ \t+\n+"), Ok(vec![Op::Plus(3)]));
    assert_eq!(parse_program(" . . "), Ok(vec![Op::Dot(2)]));
}

#[test]
fn comment_breaks_runs() {
    assert_eq!(parse_program("+a+"), Ok(vec![Op::Plus(1), Op::Plus(1)]));
}

#[test]
fn comment_stripping() {
    assert_eq!(parse_program("hello world"), Ok(vec![]));
    assert_eq!(parse_program(""), Ok(vec![]));
    assert_eq!(
        parse_program("hello world...+++<"),
        Ok(vec![Op::Dot(3), Op::Plus(3), Op::Left(1)])
    );
}

#[test]
fn bracket_matching_pairs() {
    assert_eq!(
        parse_program("[[]]"),
        Ok(vec![
            Op::LeftBracket(3),
            Op::LeftBracket(2),
            Op::RightBracket(1),
            Op::RightBracket(0)
        ])
    );
    assert_eq!(
        parse_program("[][]"),
        Ok(vec![
            Op::LeftBracket(1),
            Op::RightBracket(0),
            Op::LeftBracket(3),
            Op::RightBracket(2)
        ])
    );
}

#[test]
fn nested_bracket_targets_point_at_each_other() {
    let ops = parse_program("[[][]]").unwrap();
    assert_eq!(
        ops,
        vec![
            Op::LeftBracket(5),
            Op::LeftBracket(2),
            Op::RightBracket(1),
            Op::LeftBracket(4),
            Op::RightBracket(3),
            Op::RightBracket(0)
        ]
    );
    // following a target always lands on the opposite bracket kind
    for (i, op) in ops.iter().enumerate() {
        match op {
            Op::LeftBracket(t) => assert_eq!(ops[*t], Op::RightBracket(i)),
            Op::RightBracket(t) => assert_eq!(ops[*t], Op::LeftBracket(i)),
            _ => unreachable!(),
        }
    }
}

#[test]
fn unmatched_brackets() {
    assert_eq!(parse_program("["), Err(CompileError::UnmatchedOpenBracket));
    assert_eq!(parse_program("]"), Err(CompileError::UnmatchedCloseBracket));
    assert_eq!(parse_program("[[]"), Err(CompileError::UnmatchedOpenBracket));
    assert_eq!(parse_program("[]]"), Err(CompileError::UnmatchedCloseBracket));
}

#[test]
fn compilation_idempotent() {
    let first = parse_program("+++---<<<>>>[[]] comment , .");
    let second = parse_program("+++---<<<>>>[[]] comment , .");
    assert_eq!(first, second);
}

#[test]
fn set_jump_patches_brackets() {
    let mut op = Op::LeftBracket(0);
    op.set_jump(7);
    assert_eq!(op, Op::LeftBracket(7));

    let mut op = Op::RightBracket(3);
    op.set_jump(1);
    assert_eq!(op, Op::RightBracket(1));
}
