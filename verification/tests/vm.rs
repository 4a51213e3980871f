use tapevm::ops::Op;
use tapevm::parser::parse_program;
use tapevm::vm::{RuntimeError, TAPE_LEN, VM};

const BUDGET: usize = 1_000_000;

fn run_src(source: &str, input: &[u8]) -> (VM, Option<Result<(), RuntimeError>>, Vec<u8>) {
    let ops = parse_program(source).unwrap();
    let mut vm = VM::new().with_program(ops).build();
    let input: Vec<u8> = input.to_vec();
    let mut inpos: usize = 0;
    let mut output: Vec<u8> = Vec::new();
    let r = vm.run_for(BUDGET, &input, &mut inpos, &mut output);
    (vm, r, output)
}

#[test]
fn cell_clearing_loop() {
    let ops = parse_program("[-]").unwrap();
    let mut data = [0isize; TAPE_LEN];
    data[0] = 5;
    let mut vm = VM::new().with_data(data).with_program(ops).build();
    let input: Vec<u8> = Vec::new();
    let mut inpos: usize = 0;
    let mut output: Vec<u8> = Vec::new();
    let r = vm.run_for(BUDGET, &input, &mut inpos, &mut output);
    assert_eq!(r, Some(Ok(())));
    assert_eq!(vm.m_data[0], 0);
    assert_eq!(output, Vec::<u8>::new());
}

#[test]
fn pointer_overflow() {
    let ops = vec![Op::Plus(3), Op::Right(TAPE_LEN)];
    let mut vm = VM::new().with_program(ops).build();
    let input: Vec<u8> = Vec::new();
    let mut inpos: usize = 0;
    let mut output: Vec<u8> = Vec::new();
    let r = vm.run_for(BUDGET, &input, &mut inpos, &mut output);
    assert_eq!(r, Some(Err(RuntimeError::PointerOverflow)));
    // the failure corrupts nothing already written
    assert_eq!(vm.m_data[0], 3);
    assert_eq!(vm.m_dp, 0);
}

#[test]
fn pointer_underflow() {
    let (vm, r, _) = run_src("+++<", &[]);
    assert_eq!(r, Some(Err(RuntimeError::PointerUnderflow)));
    assert_eq!(vm.m_data[0], 3);
    assert_eq!(vm.m_dp, 0);
}

#[test]
fn move_to_last_cell_is_fine() {
    let ops = vec![Op::Right(TAPE_LEN - 1)];
    let mut vm = VM::new().with_program(ops).build();
    let input: Vec<u8> = Vec::new();
    let mut inpos: usize = 0;
    let mut output: Vec<u8> = Vec::new();
    let r = vm.run_for(BUDGET, &input, &mut inpos, &mut output);
    assert_eq!(r, Some(Ok(())));
    assert_eq!(vm.m_dp, TAPE_LEN - 1);
}

#[test]
fn io_round_trip() {
    // shift each input byte up by one: a rot-1 transform, byte for byte
    let (_, r, out) = run_src(",+.,+.,+.", b"abc");
    assert_eq!(r, Some(Ok(())));
    assert_eq!(out, b"bcd".to_vec());
}

#[test]
fn echo_loop() {
    // the classical copy loop: read, and while not at end of input, write and read on
    let (_, r, out) = run_src(",[.,]", b"hi!\x01");
    // end of input keeps the last byte, 0x01, in the cell forever: bound the run
    assert_eq!(r, None);
    assert!(out.starts_with(b"hi!\x01"));
}

#[test]
fn input_exhaustion_keeps_cell() {
    let (_, r, out) = run_src(",.,.,.", b"a");
    assert_eq!(r, Some(Ok(())));
    assert_eq!(out, b"aaa".to_vec());
}

#[test]
fn comma_run_keeps_last_byte() {
    let (_, r, out) = run_src(",,,.", b"xyz");
    assert_eq!(r, Some(Ok(())));
    assert_eq!(out, b"z".to_vec());
}

#[test]
fn output_truncates_to_low_byte() {
    let mut src = String::new();
    for _ in 0..321 {
        src.push('+');
    }
    src.push('.');
    let (_, r, out) = run_src(&src, &[]);
    assert_eq!(r, Some(Ok(())));
    assert_eq!(out, vec![65u8]);
}

#[test]
fn negative_cell_outputs_twos_complement_byte() {
    let (vm, r, out) = run_src("-.", &[]);
    assert_eq!(r, Some(Ok(())));
    assert_eq!(vm.m_data[0], -1);
    assert_eq!(out, vec![255u8]);
}

#[test]
fn skipped_loop_when_cell_zero() {
    let (_, r, out) = run_src("[.]", &[]);
    assert_eq!(r, Some(Ok(())));
    assert_eq!(out, Vec::<u8>::new());
}

#[test]
fn budget_exhaustion_reports_running() {
    let ops = parse_program("+[]").unwrap();
    let mut vm = VM::new().with_program(ops).build();
    let input: Vec<u8> = Vec::new();
    let mut inpos: usize = 0;
    let mut output: Vec<u8> = Vec::new();
    let r = vm.run_for(1000, &input, &mut inpos, &mut output);
    assert_eq!(r, None);
    // a further call continues the run and does not finish either
    let r = vm.run_for(1000, &input, &mut inpos, &mut output);
    assert_eq!(r, None);
}

#[test]
fn add_and_subtract_runs() {
    let (vm, r, _) = run_src("+++++---", &[]);
    assert_eq!(r, Some(Ok(())));
    assert_eq!(vm.m_data[0], 2);
}

#[test]
fn zero_count_ops_do_nothing() {
    let ops = vec![Op::Plus(0), Op::Minus(0), Op::Right(0), Op::Left(0), Op::Dot(0), Op::Comma(0)];
    let mut vm = VM::new().with_program(ops).build();
    let input: Vec<u8> = b"x".to_vec();
    let mut inpos: usize = 0;
    let mut output: Vec<u8> = Vec::new();
    let r = vm.run_for(BUDGET, &input, &mut inpos, &mut output);
    assert_eq!(r, Some(Ok(())));
    assert_eq!(vm.m_data[0], 0);
    assert_eq!(vm.m_dp, 0);
    assert_eq!(inpos, 0);
    assert_eq!(output, Vec::<u8>::new());
}

#[test]
fn builder_presets_state() {
    let vm = VM::new()
        .with_pc(2)
        .with_dp(3)
        .with_program(vec![Op::Plus(1)])
        .build();
    assert_eq!(vm.m_pc, 2);
    assert_eq!(vm.m_dp, 3);

    let mut data = [0isize; TAPE_LEN];
    data[7] = 9;
    let vm = VM::new().with_program(vec![]).with_data(data).build();
    assert_eq!(vm.m_data[7], 9);
    assert_eq!(vm.m_pc, 0);
    assert_eq!(vm.m_dp, 0);
}

#[test]
fn preset_pc_past_end_halts_at_once() {
    let mut vm = VM::new().with_pc(5).with_program(vec![Op::Plus(1)]).build();
    let input: Vec<u8> = Vec::new();
    let mut inpos: usize = 0;
    let mut output: Vec<u8> = Vec::new();
    let r = vm.run_for(BUDGET, &input, &mut inpos, &mut output);
    assert_eq!(r, Some(Ok(())));
    assert_eq!(vm.m_data[0], 0);
}
