use brainfuck_rs::compile::CompileError;
use brainfuck_rs::executor::{Executor, ExecutorError, MEM_SIZE};
use brainfuck_rs::instruction::Instruction;

fn compile(src: &[u8]) -> Executor {
    Executor::from_bytes(src).expect("source compiles")
}

#[test]
fn test_parse() {
    let input: &[u8] = b"-+><";
    let mut out = Vec::new();
    let mut pos = 0;
    while let Some((ins, end)) = Instruction::parse(input, pos) {
        out.push(ins);
        pos = end;
    }
    assert_eq!(pos, input.len());
    assert_eq!(
        out,
        vec![
            Instruction::Sub(1),
            Instruction::Add(1),
            Instruction::Right(1),
            Instruction::Left(1)
        ]
    );
}

#[test]
fn parse_rejects_unknown_byte_and_end() {
    assert_eq!(Instruction::parse(b"+a", 1), None);
    assert_eq!(Instruction::parse(b"+", 1), None);
    assert_eq!(Instruction::parse(b"++-", 0), Some((Instruction::Add(2), 2)));
}

#[test]
fn single_symbol_runs_compile_to_one_instruction() {
    assert_eq!(compile(b"+++++").instructions(), &[Instruction::Add(5)]);
    assert_eq!(compile(b"--").instructions(), &[Instruction::Sub(2)]);
    assert_eq!(compile(b"<<<").instructions(), &[Instruction::Left(3)]);
    assert_eq!(compile(b">").instructions(), &[Instruction::Right(1)]);
}

#[test]
fn long_runs_are_truncated_to_the_cap() {
    let src = vec![b'>'; 300];
    assert_eq!(compile(&src).instructions(), &[Instruction::Right(255)]);
    let src = vec![b'+'; 256];
    assert_eq!(compile(&src).instructions(), &[Instruction::Add(255)]);
}

#[test]
fn loop_targets_point_at_each_other() {
    let e = compile(b"+[>[-]<-]");
    assert_eq!(
        e.instructions(),
        &[
            Instruction::Add(1),
            Instruction::LeftBracket(8),
            Instruction::Right(1),
            Instruction::LeftBracket(5),
            Instruction::Sub(1),
            Instruction::RightBracket(3),
            Instruction::Left(1),
            Instruction::Sub(1),
            Instruction::RightBracket(1),
        ]
    );
}

#[test]
fn unbalanced_brackets_are_rejected() {
    for src in [&b"["[..], b"]", b"+][", b"[[]", b"[]]", b"+[-"] {
        assert_eq!(
            Executor::from_bytes(src).unwrap_err(),
            CompileError::UnbalancedBrackets
        );
    }
}

#[test]
fn unknown_symbols_are_rejected() {
    assert_eq!(
        Executor::from_bytes(b"+x-").unwrap_err(),
        CompileError::UnexpectedSymbol
    );
    assert_eq!(
        Executor::from_bytes(b"a]").unwrap_err(),
        CompileError::UnexpectedSymbol
    );
}

#[test]
fn cell_arithmetic_wraps_at_256() {
    // Eight times thirty-two increments of cell 1: 256 in all.
    let mut src = b"++++++++[>".to_vec();
    src.extend(vec![b'+'; 32]);
    src.extend(b"<-]>.");
    let mut e = compile(&src);
    assert_eq!(e.run(&[], 10_000), Ok(vec![0]));

    let mut e = compile(b"-.");
    assert_eq!(e.run(&[], 10), Ok(vec![255]));
}

#[test]
fn pointer_wraps_around_the_tape() {
    assert_eq!(MEM_SIZE, 32_768);
    let mut e = compile(b"<");
    assert_eq!(e.run(&[], 10), Ok(vec![]));
    assert_eq!(e.data_pointer(), 32_767);

    let mut e = compile(b"<>");
    assert_eq!(e.run(&[], 10), Ok(vec![]));
    assert_eq!(e.data_pointer(), 0);

    let mut e = compile(b"<+>-<.");
    assert_eq!(e.run(&[], 10), Ok(vec![1]));
    assert_eq!(e.cell(MEM_SIZE - 1), 1);
    assert_eq!(e.cell(0), 255);
}

#[test]
fn round_trip_three_increments() {
    let mut e = compile(b"+++.");
    assert_eq!(e.instructions(), &[Instruction::Add(3), Instruction::Output]);
    assert_eq!(e.run(&[], 100), Ok(vec![3]));
    assert!(e.is_halted());
}

#[test]
fn loop_moves_value_to_next_cell() {
    let mut e = compile(b"++[>+<-]");
    assert_eq!(e.run(&[], 1_000), Ok(vec![]));
    assert!(e.is_halted());
    assert_eq!(e.cell(0), 0);
    assert_eq!(e.cell(1), 2);
}

#[test]
fn empty_program_does_nothing() {
    let mut e = compile(b"");
    assert!(e.instructions().is_empty());
    assert!(e.is_halted());
    assert_eq!(e.run(&[], 0), Ok(vec![]));
    assert_eq!(e.step(None), Ok(None));
}

#[test]
fn input_is_read_into_the_cell() {
    let mut e = compile(b",+.,.");
    assert_eq!(e.run(&[65, 7], 100), Ok(vec![66, 7]));
}

#[test]
fn exhausted_input_stops_the_run() {
    let mut e = compile(b".,.");
    assert_eq!(e.run(&[], 100), Err(ExecutorError::InputExhausted));
    assert_eq!(e.instruction_pointer(), 1);
}

#[test]
fn step_limit_stops_an_endless_loop() {
    let mut e = compile(b"+[]");
    assert_eq!(e.run(&[], 50), Err(ExecutorError::StepLimitReached));
    assert!(!e.is_halted());
}

#[test]
fn stepping_one_instruction_at_a_time() {
    let mut e = compile(b"+,.");
    assert_eq!(e.step(None), Ok(None));
    assert!(e.needs_input());
    assert_eq!(e.step(None), Err(ExecutorError::InputExhausted));
    assert_eq!(e.instruction_pointer(), 1);
    assert_eq!(e.step(Some(9)), Ok(None));
    assert_eq!(e.step(None), Ok(Some(9)));
    assert!(e.is_halted());
}

#[test]
fn closing_bracket_jumps_back_while_cell_is_nonzero() {
    let mut e = compile(b"+++[.-]");
    assert_eq!(e.run(&[], 100), Ok(vec![3, 2, 1]));
}
