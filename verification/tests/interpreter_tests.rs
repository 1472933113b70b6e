use quickjs_regex::interpreter::{lre_exec, ExecContext, ExecResult, LRE_RET_TIMEOUT};
use quickjs_regex::compiler::compile_regex;
use quickjs_regex::Flags;

fn program(captures: u8, registers: u8, body: &[u8]) -> Vec<u8> {
    let mut v = vec![0u8, 0, captures, registers];
    v.extend_from_slice(&(body.len() as u32).to_le_bytes());
    v.extend_from_slice(body);
    v
}

fn run(bc: &[u8], text: &str) -> (ExecResult, Vec<Option<usize>>) {
    let mut ctx = ExecContext::new(bc, text.as_bytes());
    let r = ctx.exec(0);
    (r, ctx.captures.clone())
}

fn le_i32(v: i32) -> [u8; 4] {
    v.to_le_bytes()
}

#[test]
fn counted_loop_repeats_exactly() {
    let off = le_i32(8 - 17);
    let body = [
        19, 0, // save_start 0
        27, 0, 2, 0, 0, 0, // set_i32 r0 = 2
        1, b'a', 0, // char 'a'
        22, 0, off[0], off[1], off[2], off[3], // loop r0 -> char
        20, 0, // save_end 0
        16, // match
    ];
    let bc = program(1, 1, &body);
    let (r, caps) = run(&bc, "aaa");
    assert_eq!(r, ExecResult::Match);
    assert_eq!(caps[0], Some(0));
    assert_eq!(caps[1], Some(2));
    assert_eq!(caps.len(), 3);
    assert_eq!(caps[2], Some(0));
    assert_eq!(run(&bc, "a").0, ExecResult::NoMatch);
}

#[test]
fn loop_split_bounds_repetition() {
    let off = le_i32(8 - 21);
    let body = [
        19, 0, // save_start 0
        27, 0, 4, 0, 0, 0, // set_i32 r0 = 4
        1, b'a', 0, // char 'a'
        23, 0, 1, 0, 0, 0, off[0], off[1], off[2], off[3], // loop_split_goto_first r0, limit 1
        20, 0, // save_end 0
        16, // match
    ];
    let bc = program(1, 1, &body);
    assert_eq!(run(&bc, "aa").0, ExecResult::NoMatch);
    let (r, caps) = run(&bc, "aaa");
    assert_eq!(r, ExecResult::Match);
    assert_eq!(caps[1], Some(3));
    let (r, caps) = run(&bc, "aaaaa");
    assert_eq!(r, ExecResult::Match);
    assert_eq!(caps[1], Some(4));
}

#[test]
fn loop_split_next_first_is_lazy() {
    let off = le_i32(8 - 21);
    let body = [
        19, 0, 27, 0, 4, 0, 0, 0, 1, b'a', 0, //
        24, 0, 1, 0, 0, 0, off[0], off[1], off[2], off[3], // loop_split_next_first
        20, 0, 16,
    ];
    let bc = program(1, 1, &body);
    let (r, caps) = run(&bc, "aaaaa");
    assert_eq!(r, ExecResult::Match);
    assert_eq!(caps[1], Some(3));
}

#[test]
fn check_advance_needs_progress() {
    let stuck = program(1, 1, &[42, 0, 43, 0, 16]);
    assert_eq!(run(&stuck, "abc").0, ExecResult::NoMatch);
    let moves = program(1, 1, &[19, 0, 42, 0, 1, b'a', 0, 43, 0, 20, 0, 16]);
    let (r, caps) = run(&moves, "abc");
    assert_eq!(r, ExecResult::Match);
    assert_eq!(caps[1], Some(1));
    assert_eq!(caps[2], Some(0));
}

#[test]
fn save_reset_clears_groups() {
    let body = [
        19, 0, 19, 1, 1, b'a', 0, 20, 1, // group 1 around 'a'
        21, 1, 1, // save_reset 1..1
        20, 0, 16,
    ];
    let bc = program(2, 0, &body);
    let (r, caps) = run(&bc, "a");
    assert_eq!(r, ExecResult::Match);
    assert_eq!(caps, vec![Some(0), Some(1), None, None]);
    // a reset beyond the declared groups fails
    let bad = program(1, 0, &[19, 0, 21, 0, 1, 20, 0, 16]);
    assert_eq!(run(&bad, "a").0, ExecResult::NoMatch);
}

#[test]
fn register_out_of_range_fails() {
    let bc = program(1, 0, &[27, 0, 1, 0, 0, 0, 16]);
    assert_eq!(run(&bc, "").0, ExecResult::NoMatch);
}

#[test]
fn back_reference_uses_first_set_group() {
    let body = [19, 0, 19, 2, 1, b'b', 0, 20, 2, 32, 2, 1, 2, 20, 0, 16];
    let bc = program(3, 0, &body);
    let (r, caps) = run(&bc, "bb");
    assert_eq!(r, ExecResult::Match);
    assert_eq!(caps[1], Some(2));
    assert_eq!(run(&bc, "bc").0, ExecResult::NoMatch);
    // no listed group is set: the empty string matches
    let none_set = program(3, 0, &[19, 0, 32, 2, 1, 2, 20, 0, 16]);
    let (r, caps) = run(&none_set, "x");
    assert_eq!(r, ExecResult::Match);
    assert_eq!(caps[1], Some(0));
    // a group the program does not declare fails
    let undeclared = program(3, 0, &[19, 0, 32, 1, 5, 20, 0, 16]);
    assert_eq!(run(&undeclared, "x").0, ExecResult::NoMatch);
}

#[test]
fn lre_exec_results() {
    let bc = compile_regex("b(c)", Flags::empty()).unwrap();
    let mut capture = vec![Some(7)];
    assert_eq!(lre_exec(&mut capture, &bc, b"abc", 0), 1);
    assert_eq!(capture, vec![Some(1), Some(3), Some(2), Some(3)]);
    assert_eq!(lre_exec(&mut capture, &bc, b"abd", 0), 0);
    assert_eq!(capture, vec![None, None, None, None]);
    let deep = compile_regex("a*", Flags::empty()).unwrap();
    let text = "a".repeat(3000);
    assert_eq!(lre_exec(&mut capture, &deep, text.as_bytes(), 0), 1);
    assert_eq!(capture, vec![Some(0), Some(3000)]);
    assert_ne!(lre_exec(&mut capture, &deep, b"b", 0), LRE_RET_TIMEOUT);
}
