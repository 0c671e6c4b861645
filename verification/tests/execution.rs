use tapevm::instruction::Instruction;
use tapevm::state::{IoBuffer, MachineState, Programme};
use tapevm::vm::VmError;

fn run(source: &[u8], input: Vec<u8>, tape_size: usize) -> (Programme, MachineState, IoBuffer) {
    let mut p = Programme::parse(source).unwrap();
    let mut ms = MachineState::new(tape_size);
    let mut io = IoBuffer::new(input);
    p.execute(&mut ms, &mut io).unwrap();
    (p, ms, io)
}

#[test]
fn empty_programme_halts_without_output() {
    let (p, ms, io) = run(b"", vec![], 4);
    assert_eq!(io.output, Vec::<u8>::new());
    assert_eq!(p.index, 0);
    assert_eq!(ms.index, 0);
}

#[test]
fn counting_programme_outputs_n() {
    let (_, _, io) = run(b"+++++.", vec![], 4);
    assert_eq!(io.output, vec![5]);
}

#[test]
fn increment_256_times_wraps_to_zero() {
    let mut source = vec![b'+'; 256];
    source.push(b'.');
    let (_, _, io) = run(&source, vec![], 4);
    assert_eq!(io.output, vec![0]);
}

#[test]
fn increment_255_times_reaches_255() {
    let mut source = vec![b'+'; 255];
    source.push(b'.');
    let (_, _, io) = run(&source, vec![], 4);
    assert_eq!(io.output, vec![255]);
}

#[test]
fn decrement_from_zero_wraps_to_255() {
    let (_, _, io) = run(b"-.", vec![], 4);
    assert_eq!(io.output, vec![255]);
}

#[test]
fn multiply_loop_outputs_sixty_four() {
    let (_, _, io) = run(b"++++++++[>++++++++<-]>.", vec![], 8192);
    assert_eq!(io.output, vec![64]);
}

#[test]
fn echo_copies_input_byte() {
    let (_, _, io) = run(b",.", vec![65], 4);
    assert_eq!(io.output, vec![65]);
}

#[test]
fn exhausted_input_reads_zero() {
    let (_, _, io) = run(b"+,.", vec![], 4);
    assert_eq!(io.output, vec![0]);
}

#[test]
fn input_then_exhausted_input() {
    let (_, _, io) = run(b",.,.", vec![7], 4);
    assert_eq!(io.output, vec![7, 0]);
}

#[test]
fn moving_left_of_cell_zero_is_a_bounds_error() {
    let mut p = Programme::parse(b"<").unwrap();
    let mut ms = MachineState::new(4);
    let mut io = IoBuffer::new(vec![]);
    assert_eq!(p.execute(&mut ms, &mut io), Err(VmError::Bounds));
    assert_eq!(io.output, Vec::<u8>::new());
}

#[test]
fn bounds_error_keeps_partial_output() {
    let mut p = Programme::parse(b"+.<.").unwrap();
    let mut ms = MachineState::new(4);
    let mut io = IoBuffer::new(vec![]);
    assert_eq!(p.execute(&mut ms, &mut io), Err(VmError::Bounds));
    assert_eq!(io.output, vec![1]);
}

#[test]
fn tape_doubles_when_pointer_runs_right() {
    let (_, ms, io) = run(b">>>>>>>>+.", vec![], 2);
    assert_eq!(io.output, vec![1]);
    assert!(ms.tape.len() >= 9);
    assert_eq!(ms.index, 8);
}

#[test]
fn jump_open_on_zero_cell_lands_past_partner() {
    let mut p = Programme::parse(b"[+]").unwrap();
    let mut ms = MachineState::new(4);
    let mut io = IoBuffer::new(vec![]);
    p.step(&mut ms, &mut io).unwrap();
    assert_eq!(p.index, 3);
    assert_eq!(p.instructions[p.index], Instruction::End);
}

#[test]
fn jump_close_on_nonzero_cell_lands_on_partner() {
    let mut p = Programme::parse(b"++[-]").unwrap();
    let mut ms = MachineState::new(4);
    let mut io = IoBuffer::new(vec![]);
    for _ in 0..4 {
        p.step(&mut ms, &mut io).unwrap();
    }
    assert_eq!(p.index, 4);
    assert!(matches!(p.instructions[p.index], Instruction::JumpClose(2)));
    p.step(&mut ms, &mut io).unwrap();
    assert_eq!(p.index, 2);
    assert!(matches!(p.instructions[p.index], Instruction::JumpOpen(2)));
}

#[test]
fn clear_loop_halts_on_nonzero_cell() {
    let (_, ms, io) = run(b"+++[-].", vec![], 4);
    assert_eq!(io.output, vec![0]);
    assert_eq!(ms.tape[0], 0);
}

#[test]
fn plus_loop_halts_once_the_cell_wraps_to_zero() {
    let (_, ms, _) = run(b"+[+].", vec![], 4);
    assert_eq!(ms.tape[0], 0);
}

#[test]
fn empty_loop_never_halts_within_budget() {
    let mut p = Programme::parse(b"+[]").unwrap();
    let mut ms = MachineState::new(4);
    let mut io = IoBuffer::new(vec![]);
    assert_eq!(p.run_steps(&mut ms, &mut io, 10_000), Ok(false));
    assert_ne!(p.instructions[p.index], Instruction::End);
}

#[test]
fn run_steps_halts_within_budget() {
    let mut p = Programme::parse(b"+++.").unwrap();
    let mut ms = MachineState::new(4);
    let mut io = IoBuffer::new(vec![]);
    assert_eq!(p.run_steps(&mut ms, &mut io, 100), Ok(true));
    assert_eq!(io.output, vec![3]);
}

#[test]
fn run_steps_reports_halt_exactly_at_the_budget() {
    let mut p = Programme::parse(b"++").unwrap();
    let mut ms = MachineState::new(4);
    let mut io = IoBuffer::new(vec![]);
    assert_eq!(p.run_steps(&mut ms, &mut io, 1), Ok(false));
    assert_eq!(p.run_steps(&mut ms, &mut io, 1), Ok(true));
    assert_eq!(ms.tape[0], 2);
}

#[test]
fn run_steps_surfaces_bounds_error() {
    let mut p = Programme::parse(b"<").unwrap();
    let mut ms = MachineState::new(4);
    let mut io = IoBuffer::new(vec![]);
    assert_eq!(p.run_steps(&mut ms, &mut io, 10), Err(VmError::Bounds));
}

#[test]
fn replaying_a_programme_on_fresh_state_repeats_behaviour() {
    let source: &[u8] = b"++[>+<-]>.";
    let mut p = Programme::parse(source).unwrap();
    let mut ms = MachineState::new(8);
    let mut io = IoBuffer::new(vec![]);
    p.execute(&mut ms, &mut io).unwrap();
    let mut p2 = Programme::parse(source).unwrap();
    let mut ms2 = MachineState::new(8);
    let mut io2 = IoBuffer::new(vec![]);
    p2.execute(&mut ms2, &mut io2).unwrap();
    assert_eq!(io.output, io2.output);
    assert_eq!(io.output, vec![2]);
}
