use tapevm::driver::{Driver, RunError};
use tapevm::parser::CompileError;
use tapevm::vm::RuntimeError;

const BUDGET: usize = 1_000_000;

#[test]
fn driver_runs_a_program() {
    let input: Vec<u8> = b"abc".to_vec();
    let mut output: Vec<u8> = Vec::new();
    let r = Driver::run(",+.,+.,+.", &input, &mut output, BUDGET);
    assert_eq!(r, Some(Ok(())));
    assert_eq!(output, b"bcd".to_vec());
}

#[test]
fn driver_reports_compile_errors() {
    let input: Vec<u8> = Vec::new();
    let mut output: Vec<u8> = Vec::new();
    let r = Driver::run("[", &input, &mut output, BUDGET);
    assert_eq!(
        r,
        Some(Err(RunError::Compile(CompileError::UnmatchedOpenBracket)))
    );
    assert_eq!(output, Vec::<u8>::new());

    let r = Driver::run("]", &input, &mut output, BUDGET);
    assert_eq!(
        r,
        Some(Err(RunError::Compile(CompileError::UnmatchedCloseBracket)))
    );
}

#[test]
fn driver_reports_runtime_errors() {
    let input: Vec<u8> = Vec::new();
    let mut output: Vec<u8> = Vec::new();
    let r = Driver::run("<", &input, &mut output, BUDGET);
    assert_eq!(
        r,
        Some(Err(RunError::Runtime(RuntimeError::PointerUnderflow)))
    );
}

#[test]
fn driver_keeps_output_before_a_failure() {
    let input: Vec<u8> = Vec::new();
    let mut output: Vec<u8> = Vec::new();
    let r = Driver::run("+.<", &input, &mut output, BUDGET);
    assert_eq!(
        r,
        Some(Err(RunError::Runtime(RuntimeError::PointerUnderflow)))
    );
    assert_eq!(output, vec![1u8]);
}

#[test]
fn driver_reports_an_exhausted_budget() {
    let input: Vec<u8> = Vec::new();
    let mut output: Vec<u8> = Vec::new();
    let r = Driver::run("+[]", &input, &mut output, 1000);
    assert_eq!(r, None);
}
