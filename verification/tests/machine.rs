use brainfuck::machine::{byte_add, wrap_pointer, Effect, Machine, TAPE_LEN};

const FUEL: u64 = 1_000_000;

#[test]
fn byte_add_wraps_in_both_directions() {
    assert_eq!(byte_add(255, 1), 0);
    assert_eq!(byte_add(0, 255), 255);
    assert_eq!(byte_add(200, 100), 44);
}

#[test]
fn wrap_pointer_stays_on_the_tape() {
    assert_eq!(TAPE_LEN, 30000);
    assert_eq!(wrap_pointer(0, 1), 1);
    assert_eq!(wrap_pointer(0, -1), 29999);
    assert_eq!(wrap_pointer(29999, 1), 0);
    assert_eq!(wrap_pointer(5, 90000), 5);
    assert_eq!(wrap_pointer(0, -90001), 29999);
    assert_eq!(wrap_pointer(0, isize::MAX), 25807);
    assert_eq!(wrap_pointer(0, isize::MIN), 4192);
}

#[test]
fn pointer_wraps_left_from_zero() {
    let mut m = Machine::from_source(b"<").unwrap();
    let out = m.run(b"", FUEL).unwrap();
    assert!(out.is_empty());
    assert_eq!(m.pointer, 29999);
}

#[test]
fn pointer_wraps_over_accumulated_moves() {
    let src = vec![b'>'; 60001];
    let mut m = Machine::from_source(&src).unwrap();
    m.run(b"", FUEL).unwrap();
    assert_eq!(m.pointer, 1);

    let src = vec![b'<'; 90001];
    let mut m = Machine::from_source(&src).unwrap();
    m.run(b"", FUEL).unwrap();
    assert_eq!(m.pointer, 29999);
}

#[test]
fn cell_wraps_up_at_256() {
    let src = vec![b'+'; 256];
    let mut m = Machine::from_source(&src).unwrap();
    m.run(b"", FUEL).unwrap();
    assert_eq!(m.memory[0], 0);
}

#[test]
fn cell_wraps_down_from_zero() {
    let mut m = Machine::from_source(b"-").unwrap();
    m.run(b"", FUEL).unwrap();
    assert_eq!(m.memory[0], 255);
}

#[test]
fn multiply_loop_outputs_sixteen() {
    let mut m = Machine::from_source(b"++++[>++++<-]>.").unwrap();
    let out = m.run(b"", FUEL).unwrap();
    assert_eq!(out, vec![16]);
}

#[test]
fn echo_copies_the_input_byte() {
    let mut m = Machine::from_source(b",.").unwrap();
    let out = m.run(b"A", FUEL).unwrap();
    assert_eq!(out, vec![65]);
}

#[test]
fn exhausted_input_reads_as_zero() {
    let mut m = Machine::from_source(b",.").unwrap();
    let out = m.run(b"", FUEL).unwrap();
    assert_eq!(out, vec![0]);
}

#[test]
fn empty_loop_over_zero_cell_terminates_at_once() {
    let mut m = Machine::from_source(b"[]").unwrap();
    let out = m.run(b"", 10).unwrap();
    assert!(out.is_empty());
    assert!(m.halted());
}

#[test]
fn empty_program_is_halted_from_the_start() {
    let mut m = Machine::from_source(b"").unwrap();
    assert!(m.halted());
    assert_eq!(m.run(b"", 10), Some(vec![]));
}

#[test]
fn endless_loop_exhausts_the_budget() {
    let mut m = Machine::from_source(b"+[]").unwrap();
    assert_eq!(m.run(b"", 1000), None);
    assert!(!m.halted());
}

#[test]
fn fresh_machine_has_a_zeroed_tape() {
    let m = Machine::from_source(b"+").unwrap();
    assert_eq!(m.memory.len(), TAPE_LEN);
    assert!(m.memory.iter().all(|&b| b == 0));
    assert_eq!(m.pointer, 0);
    assert_eq!(m.program_counter, 0);
}

#[test]
fn step_surfaces_input_and_output_effects() {
    let mut m = Machine::from_source(b",.").unwrap();
    assert_eq!(m.step(), Effect::AwaitingInput);
    m.give_input(7);
    assert_eq!(m.step(), Effect::Emitted(7));
    assert!(m.halted());
}

#[test]
fn step_executes_internal_commands_silently() {
    let mut m = Machine::from_source(b"+>").unwrap();
    assert_eq!(m.step(), Effect::Stepped);
    assert_eq!(m.memory[0], 1);
    assert_eq!(m.step(), Effect::Stepped);
    assert_eq!(m.pointer, 1);
    assert!(m.halted());
}
