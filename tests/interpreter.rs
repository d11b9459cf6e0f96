use bf_interp::compiler::{parse, reduce_similar, source_chars, CompileError};
use bf_interp::engine::{
    backwards, decrement, forwards, increment, run, Machine, Status, Step, TAPE_LEN,
};
use bf_interp::instruction::Instruction;

const HELLO: &str =
    "++++++++[>++++[>++>+++>+++>+<<<<-]>+>+>->>+[<]<-]>>.>---.+++++++..+++.";
const HELLO_WORLD: &str = "++++++++[>++++[>++>+++>+++>+<<<<-]>+>+>->>+[<]<-]>>.>---.+++++++..+++.>>.<-.<.+++.------.--------.>>+.>++.";

fn run_source(src: &str, input: &[u8], max_steps: usize) -> bf_interp::engine::RunOutcome {
    let prog = parse(src).expect("source compiles");
    run(&prog, &input.to_vec(), max_steps)
}

#[test]
fn hello_prefix_outputs_hello() {
    let r = run_source(HELLO, &[], 100_000);
    assert_eq!(r.status, Status::Halted);
    assert_eq!(r.output, b"Hello".to_vec());
}

#[test]
fn hello_world_full_program() {
    let r = run_source(HELLO_WORLD, &[], 100_000);
    assert_eq!(r.status, Status::Halted);
    assert_eq!(r.output, b"Hello World!\n".to_vec());
}

#[test]
fn echo_one_byte() {
    let r = run_source(",.", &[65], 100);
    assert_eq!(r.status, Status::Halted);
    assert_eq!(r.output, vec![b'A']);
    assert_eq!(r.consumed, 1);
}

#[test]
fn endless_loop_hits_step_cap() {
    let r = run_source("+[]", &[], 10_000);
    assert_eq!(r.status, Status::Running);
    assert!(r.output.is_empty());
    assert_eq!(r.machine.cell(0), 1);
}

#[test]
fn lone_loop_end_is_rejected() {
    assert_eq!(parse("]").err(), Some(CompileError::UnmatchedEnd(0)));
}

#[test]
fn lone_loop_start_is_rejected() {
    assert_eq!(parse("[").err(), Some(CompileError::UnterminatedStart(0)));
}

#[test]
fn error_positions_name_the_offending_bracket() {
    assert_eq!(parse("[]]").err(), Some(CompileError::UnmatchedEnd(2)));
    assert_eq!(parse("a]b[").err(), Some(CompileError::UnmatchedEnd(1)));
    assert_eq!(parse("[[]").err(), Some(CompileError::UnterminatedStart(0)));
    assert_eq!(parse("[][[]").err(), Some(CompileError::UnterminatedStart(2)));
    assert_eq!(parse("[x[").err(), Some(CompileError::UnterminatedStart(2)));
}

#[test]
fn move_left_from_origin_faults() {
    let r = run_source("<", &[], 10);
    assert_eq!(r.status, Status::TapeFault);
    assert_eq!(r.machine.data_pointer(), 0);
    assert_eq!(r.machine.instruction_pointer(), 0);
}

#[test]
fn move_right_off_the_end_faults() {
    let src = ">".repeat(TAPE_LEN);
    let prog = parse(&src).unwrap();
    assert_eq!(prog.instructions().clone(), vec![Instruction::MoveRight(TAPE_LEN)]);
    let r = run(&prog, &vec![], 10);
    assert_eq!(r.status, Status::TapeFault);
    let r = run_source(&">".repeat(TAPE_LEN - 1), &[], 10);
    assert_eq!(r.status, Status::Halted);
    assert_eq!(r.machine.data_pointer(), TAPE_LEN - 1);
}

#[test]
fn missing_input_byte_is_reported() {
    let r = run_source(",", &[], 10);
    assert_eq!(r.status, Status::InputExhausted);
    let r = run_source(",,", &[7], 10);
    assert_eq!(r.status, Status::InputExhausted);
    assert_eq!(r.consumed, 1);
    assert_eq!(r.machine.cell(0), 7);
}

#[test]
fn comment_only_source_is_empty_program() {
    let prog = parse("hello world\n 123 abc").unwrap();
    assert_eq!(prog.len(), 0);
    let r = run(&prog, &vec![1, 2, 3], 1);
    assert_eq!(r.status, Status::Halted);
    assert!(r.output.is_empty());
    assert_eq!(r.consumed, 0);
}

#[test]
fn empty_source_terminates_immediately() {
    let prog = parse("").unwrap();
    assert_eq!(prog.len(), 0);
    assert_eq!(run(&prog, &vec![], 5).status, Status::Halted);
}

#[test]
fn runs_collapse_into_counts() {
    let prog = parse(">>><<++++---.,[]").unwrap();
    assert_eq!(
        prog.instructions().clone(),
        vec![
            Instruction::MoveRight(3),
            Instruction::MoveLeft(2),
            Instruction::Add(4),
            Instruction::Sub(3),
            Instruction::Output,
            Instruction::Input,
            Instruction::LoopStart,
            Instruction::LoopEnd,
        ]
    );
}

#[test]
fn runs_split_by_ignored_characters() {
    let prog = parse("++ ++").unwrap();
    assert_eq!(prog.instructions().clone(), vec![Instruction::Add(2), Instruction::Add(2)]);
}

#[test]
fn run_of_256_pluses_stores_zero() {
    let prog = parse(&"+".repeat(256)).unwrap();
    assert_eq!(prog.instructions().clone(), vec![Instruction::Add(0)]);
    let r = run(&prog, &vec![], 10);
    assert_eq!(r.status, Status::Halted);
    assert_eq!(r.machine.cell(0), 0);
    let prog = parse(&"+".repeat(257)).unwrap();
    assert_eq!(prog.instructions().clone(), vec![Instruction::Add(1)]);
    let prog = parse(&"-".repeat(300)).unwrap();
    assert_eq!(prog.instructions().clone(), vec![Instruction::Sub(44)]);
}

#[test]
fn run_of_256_pluses_keeps_a_nonzero_cell() {
    let src = format!(",{}.", "+".repeat(256));
    let r = run_source(&src, &[42], 10);
    assert_eq!(r.output, vec![42]);
}

#[test]
fn add_then_sub_restores_every_cell() {
    for v in 0..=255u8 {
        for n in 1..=255u8 {
            let mut c = v;
            increment(&mut c, n);
            decrement(&mut c, n);
            assert_eq!(c, v);
        }
    }
    let mut c = 250u8;
    increment(&mut c, 10);
    assert_eq!(c, 4);
    decrement(&mut c, 5);
    assert_eq!(c, 255);
}

#[test]
fn pointer_moves() {
    let mut p: usize = 5;
    forwards(&mut p, 7);
    assert_eq!(p, 12);
    backwards(&mut p, 12);
    assert_eq!(p, 0);
}

#[test]
fn loop_map_is_symmetric() {
    let prog = parse("+[>[-]<[>+<-]]x[.]").unwrap();
    let n = prog.len();
    let mut seen = vec![0usize; n];
    for i in 0..n {
        let ins = prog.instruction(i);
        match prog.partner(i) {
            Some(j) => {
                assert!(ins == Instruction::LoopStart || ins == Instruction::LoopEnd);
                assert_eq!(prog.partner(j), Some(i));
                seen[j] += 1;
            }
            None => assert!(ins != Instruction::LoopStart && ins != Instruction::LoopEnd),
        }
    }
    assert!(seen.iter().all(|&k| k <= 1));
    assert_eq!(prog.partner(1), Some(13));
    assert_eq!(prog.partner(3), Some(5));
    assert_eq!(prog.partner(7), Some(12));
    assert_eq!(prog.partner(14), Some(16));
    assert_eq!(prog.partner(0), None);
    assert_eq!(prog.partner(n), None);
}

#[test]
fn deep_nesting_compiles() {
    let depth = 2000;
    let src = format!("{}{}", "[".repeat(depth), "]".repeat(depth));
    let prog = parse(&src).unwrap();
    assert_eq!(prog.len(), 2 * depth);
    for i in 0..depth {
        assert_eq!(prog.partner(i), Some(2 * depth - 1 - i));
    }
    assert_eq!(run(&prog, &vec![], 10).status, Status::Halted);
    let bad = format!("{}{}", "[".repeat(depth), "]".repeat(depth - 1));
    assert_eq!(parse(&bad).err(), Some(CompileError::UnterminatedStart(0)));
    let bad = format!("{}{}", "[".repeat(depth), "]".repeat(depth + 1));
    assert_eq!(parse(&bad).err(), Some(CompileError::UnmatchedEnd(2 * depth)));
}

#[test]
fn collapsed_and_spread_out_sources_agree() {
    let collapsed = "+++++[>+++<-]>>>>--<<<.>+.";
    let spread = "+ + + + + [ > + + + < - ] > > > > - - < < < . > + .";
    let a = run_source(collapsed, &[], 100_000);
    let b = run_source(spread, &[], 100_000);
    assert_eq!(a.status, Status::Halted);
    assert_eq!(b.status, Status::Halted);
    assert_eq!(a.output, b.output);
    assert_eq!(a.output, vec![15, 1]);
    assert_eq!(a.machine.data_pointer(), b.machine.data_pointer());
    for i in 0..8 {
        assert_eq!(a.machine.cell(i), b.machine.cell(i));
    }
}

#[test]
fn stepping_by_hand_with_input() {
    let prog = parse(",+.").unwrap();
    let mut m = Machine::new();
    assert_eq!(m.step(&prog), Step::NeedInput);
    assert_eq!(m.instruction_pointer(), 0);
    m.feed(&prog, 9);
    assert_eq!(m.step(&prog), Step::Continue);
    assert_eq!(m.step(&prog), Step::Output(10));
    assert_eq!(m.step(&prog), Step::Halted);
}

#[test]
fn from_sym_rep_builds_counted_units() {
    assert_eq!(Instruction::from_sym_rep('>', 4), Instruction::MoveRight(4));
    assert_eq!(Instruction::from_sym_rep('<', 1), Instruction::MoveLeft(1));
    assert_eq!(Instruction::from_sym_rep('+', 256), Instruction::Add(0));
    assert_eq!(Instruction::from_sym_rep('-', 511), Instruction::Sub(255));
    assert!(Instruction::LoopStart.is_start());
    assert!(!Instruction::LoopEnd.is_start());
}

#[test]
fn reduce_similar_counts_the_run() {
    let chars = source_chars("++-->>>");
    assert_eq!(chars.len(), 7);
    assert_eq!(reduce_similar(&chars, 0), 2);
    assert_eq!(reduce_similar(&chars, 1), 1);
    assert_eq!(reduce_similar(&chars, 4), 3);
    assert_eq!(reduce_similar(&chars, 6), 1);
}
