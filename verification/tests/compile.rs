use brainfuck::command::{Command, SyntaxError};
use brainfuck::compiler::compile;

#[test]
fn arith_run_folds_to_one_change_byte() {
    let cmds = compile(b"+++--").unwrap();
    assert_eq!(cmds, vec![Command::ChangeByte(1)]);
}

#[test]
fn arith_run_wraps_at_256() {
    let src = vec![b'+'; 300];
    let cmds = compile(&src).unwrap();
    assert_eq!(cmds, vec![Command::ChangeByte(44)]);
}

#[test]
fn single_decrement_is_wrapping_minus_one() {
    let cmds = compile(b"-").unwrap();
    assert_eq!(cmds, vec![Command::ChangeByte(255)]);
}

#[test]
fn move_run_folds_to_one_change_pointer() {
    let cmds = compile(b"><<<").unwrap();
    assert_eq!(cmds, vec![Command::ChangePointer(-2)]);
}

#[test]
fn move_run_keeps_full_magnitude() {
    let src = vec![b'>'; 100];
    let cmds = compile(&src).unwrap();
    assert_eq!(cmds, vec![Command::ChangePointer(100)]);
}

#[test]
fn fusion_stops_at_other_command_kinds() {
    let cmds = compile(b"+>+").unwrap();
    assert_eq!(
        cmds,
        vec![
            Command::ChangeByte(1),
            Command::ChangePointer(1),
            Command::ChangeByte(1),
        ]
    );
}

#[test]
fn fusion_stops_at_brackets() {
    let cmds = compile(b"+[+]+").unwrap();
    assert_eq!(
        cmds,
        vec![
            Command::ChangeByte(1),
            Command::JumpIfZero(4),
            Command::ChangeByte(1),
            Command::JumpIfNonZero(2),
            Command::ChangeByte(1),
        ]
    );
}

#[test]
fn bracket_pair_targets_point_past_partner() {
    let cmds = compile(b"[]").unwrap();
    assert_eq!(cmds, vec![Command::JumpIfZero(2), Command::JumpIfNonZero(1)]);
}

#[test]
fn nested_brackets_pair_inside_out() {
    let cmds = compile(b"[[]]").unwrap();
    assert_eq!(
        cmds,
        vec![
            Command::JumpIfZero(4),
            Command::JumpIfZero(3),
            Command::JumpIfNonZero(2),
            Command::JumpIfNonZero(1),
        ]
    );
}

#[test]
fn sequential_brackets_pair_separately() {
    let cmds = compile(b"[][]").unwrap();
    assert_eq!(
        cmds,
        vec![
            Command::JumpIfZero(2),
            Command::JumpIfNonZero(1),
            Command::JumpIfZero(4),
            Command::JumpIfNonZero(3),
        ]
    );
}

#[test]
fn unmatched_close_fails() {
    assert_eq!(compile(b"]"), Err(SyntaxError::UnbalancedBrackets));
    assert_eq!(compile(b"+]"), Err(SyntaxError::UnbalancedBrackets));
    assert_eq!(compile(b"[]]"), Err(SyntaxError::UnbalancedBrackets));
}

#[test]
fn unmatched_open_fails() {
    assert_eq!(compile(b"["), Err(SyntaxError::UnbalancedBrackets));
    assert_eq!(compile(b"[[]"), Err(SyntaxError::UnbalancedBrackets));
    assert_eq!(compile(b"+["), Err(SyntaxError::UnbalancedBrackets));
}

#[test]
fn non_instruction_bytes_are_ignored() {
    let cmds = compile(b"hello world\n").unwrap();
    assert_eq!(cmds, vec![]);
    let cmds = compile(b"x+y+z").unwrap();
    assert_eq!(cmds, vec![Command::ChangeByte(2)]);
}

#[test]
fn empty_source_compiles_to_nothing() {
    assert_eq!(compile(b""), Ok(vec![]));
}

#[test]
fn compiling_twice_yields_identical_sequences() {
    let src = b"++[>+<-]>.";
    let first = compile(src).unwrap();
    let second = compile(src).unwrap();
    assert_eq!(first, second);
}
