use quickjs_regex::ast::Node;
use quickjs_regex::charclass::{builtin_intervals, class_ranges, complement, insert_interval};
use quickjs_regex::ast::{BuiltinClass, ClassRange};
use quickjs_regex::codegen::CodeGenerator;
use quickjs_regex::compiler::compile_regex;
use quickjs_regex::error::ErrorKind;
use quickjs_regex::escape::lre_parse_escape;
use quickjs_regex::header::{lre_get_alloc_count, lre_get_capture_count, lre_get_flags, lre_get_groupnames};
use quickjs_regex::interpreter::{ExecContext, ExecResult};
use quickjs_regex::parser::parse;
use quickjs_regex::{BytecodeBuilder, Flags, OpCode};

fn run(pattern: &str, flags: Flags, text: &str) -> (ExecResult, Vec<Option<usize>>) {
    let bc = compile_regex(pattern, flags).expect("compile failed");
    let mut ctx = ExecContext::new(&bc, text.as_bytes());
    let r = ctx.exec(0);
    (r, ctx.captures.clone())
}

fn kind_of(pattern: &str) -> ErrorKind {
    compile_regex(pattern, Flags::empty()).unwrap_err().kind()
}

#[test]
fn unclosed_group_is_an_error() {
    assert!(compile_regex("(unclosed", Flags::empty()).is_err());
}

#[test]
fn header_of_compiled_program() {
    let bc = compile_regex("(a)(b)", Flags::from_bits(Flags::GLOBAL)).unwrap();
    assert_eq!(lre_get_flags(&bc), Flags::GLOBAL as i32);
    assert_eq!(lre_get_capture_count(&bc), 3);
    assert_eq!(lre_get_alloc_count(&bc), 6);
    assert_eq!(lre_get_groupnames(&bc), None);
    let body_len = u32::from_le_bytes([bc[4], bc[5], bc[6], bc[7]]) as usize;
    assert_eq!(body_len + 8, bc.len());
    let named = [Flags::NAMED_GROUPS as u8, 0, 1, 0, 3, 0, 0, 0, 16, 16, 16];
    assert_eq!(lre_get_groupnames(&named), Some(11));
}

#[test]
fn inline_flags_are_promoted() {
    let bc = compile_regex("x(?m)y(?s)", Flags::empty()).unwrap();
    assert_eq!(lre_get_flags(&bc), (Flags::MULTILINE | Flags::DOT_ALL) as i32);
    let bc = compile_regex("(?i)a", Flags::empty()).unwrap();
    assert_eq!(lre_get_flags(&bc), Flags::IGNORE_CASE as i32);
}

#[test]
fn exact_bytecode_of_a_literal() {
    let bc = compile_regex("a", Flags::from_bits(Flags::STICKY)).unwrap();
    // header, save_start 0, char 'a', save_end 0, match
    assert_eq!(bc, vec![32, 0, 1, 0, 8, 0, 0, 0, 19, 0, 1, 0x61, 0, 20, 0, 16]);
}

#[test]
fn exact_bytecode_with_search_loop() {
    let bc = compile_regex("a", Flags::empty()).unwrap();
    assert_eq!(&bc[8..19], &[14, 6, 0, 0, 0, 6, 13, 0xF5, 0xFF, 0xFF, 0xFF]);
}

#[test]
fn codegen_errors() {
    assert_eq!(kind_of("[z-a]"), ErrorKind::InvalidClassRange);
    assert_eq!(kind_of("a{3,2}"), ErrorKind::QuantifierOutOfOrder);
    assert_eq!(kind_of("(a)\\2"), ErrorKind::InvalidBackReference { index: 2 });
    let many = "(a)".repeat(255);
    assert_eq!(kind_of(&many), ErrorKind::TooManyCaptures);
    let e = compile_regex("[z-a]", Flags::empty()).unwrap_err();
    assert_eq!(e.to_string(), "Regex compiler error: range out of order in character class");
}

#[test]
fn too_large_program() {
    assert_eq!(kind_of("(?:(?:aaaaaaaaaa){100000}){1000}"), ErrorKind::PatternTooLarge);
}

#[test]
fn case_insensitive_match() {
    assert_eq!(run("[a-c]+", Flags::from_bits(Flags::IGNORE_CASE), "xBCa").0, ExecResult::Match);
    assert_eq!(run("(a)\\1", Flags::from_bits(Flags::IGNORE_CASE), "aA").0, ExecResult::Match);
    assert_eq!(run("^abc$", Flags::empty(), "ABC").0, ExecResult::NoMatch);
}

#[test]
fn multiline_anchors() {
    let ml = Flags::from_bits(Flags::MULTILINE);
    assert_eq!(run("^b$", ml, "a\nb\nc").0, ExecResult::Match);
    assert_eq!(run("^b$", Flags::empty(), "a\nb\nc").0, ExecResult::NoMatch);
}

#[test]
fn dot_all_flag() {
    assert_eq!(run("a.c", Flags::from_bits(Flags::DOT_ALL), "a\nc").0, ExecResult::Match);
}

#[test]
fn lookahead_keeps_its_captures() {
    let (r, caps) = run("(?=(a))a", Flags::empty(), "a");
    assert_eq!(r, ExecResult::Match);
    assert_eq!(caps, vec![Some(0), Some(1), Some(0), Some(1)]);
}

#[test]
fn captures_unset_after_failure() {
    let (r, caps) = run("(a)b", Flags::empty(), "ac");
    assert_eq!(r, ExecResult::NoMatch);
    assert_eq!(caps, vec![None, None, None, None]);
}

#[test]
fn backreference_to_unset_group_matches_empty() {
    assert_eq!(run("^(?:(a)|b)\\1c$", Flags::empty(), "bc").0, ExecResult::Match);
}

#[test]
fn empty_loop_stops_at_the_callers_budget() {
    let bc = compile_regex("(?:a*)*b", Flags::empty()).unwrap();
    let mut ctx = ExecContext::new(&bc, b"aaa");
    assert_eq!(ctx.exec_with_budget(0, 100_000), ExecResult::ResourceLimit);
    assert!(ctx.captures.iter().all(|c| c.is_none()));
}

#[test]
fn long_backtracking_runs_to_the_end() {
    let text = "a".repeat(2100);
    assert_eq!(run("a*", Flags::empty(), &text), (ExecResult::Match, vec![Some(0), Some(2100)]));
    let text = format!("{}c", "ab".repeat(5000));
    assert_eq!(run("^(?:ab)*c", Flags::empty(), &text).0, ExecResult::Match);
    let text = "ab".repeat(5000);
    assert_eq!(run("^(?:ab)*c", Flags::empty(), &text).0, ExecResult::NoMatch);
    // a budget large enough gives the same answer as none
    let bc = compile_regex("a*b", Flags::empty()).unwrap();
    let mut ctx = ExecContext::new(&bc, b"aaab");
    assert_eq!(ctx.exec_with_budget(0, 1000), ExecResult::Match);
    assert_eq!(ctx.exec_with_budget(0, 3), ExecResult::ResourceLimit);
}

#[test]
fn exec_and_reset_are_repeatable() {
    let bc = compile_regex("b", Flags::empty()).unwrap();
    let mut ctx = ExecContext::new(&bc, b"ab");
    assert_eq!(ctx.exec(0), ExecResult::Match);
    let first = ctx.captures.clone();
    ctx.reset();
    assert_eq!(ctx.captures, vec![None, None]);
    assert_eq!(ctx.exec(0), ExecResult::Match);
    assert_eq!(ctx.captures, first);
    assert_eq!(first, vec![Some(1), Some(2)]);
}

#[test]
fn unicode_class_and_negation() {
    assert_eq!(run("^[^a]$", Flags::empty(), "Ж").0, ExecResult::Match);
    assert_eq!(run("^\\D$", Flags::empty(), "😀").0, ExecResult::Match);
    assert_eq!(run("^\\S$", Flags::empty(), "\u{3000}").0, ExecResult::NoMatch);
}

#[test]
fn escapes_parse() {
    let mut pos = 0;
    assert_eq!(lre_parse_escape(b"n", &mut pos, 0), 10);
    assert_eq!(pos, 1);
    let mut pos = 0;
    assert_eq!(lre_parse_escape(b"x41!", &mut pos, 0), 0x41);
    assert_eq!(pos, 3);
    let mut pos = 0;
    assert_eq!(lre_parse_escape(b"xZ1", &mut pos, 0), -1);
    assert_eq!(pos, 0);
    let mut pos = 0;
    assert_eq!(lre_parse_escape(b"u{1F600}", &mut pos, 1), 0x1F600);
    assert_eq!(pos, 8);
    let mut pos = 0;
    assert_eq!(lre_parse_escape(b"uD83D\\uDE00", &mut pos, 2), 0x1F600);
    assert_eq!(pos, 11);
    let mut pos = 0;
    assert_eq!(lre_parse_escape(b"uD83D\\uDE00", &mut pos, 1), 0xD83D);
    assert_eq!(pos, 5);
    let mut pos = 0;
    assert_eq!(lre_parse_escape(b"101", &mut pos, 0), 0o101);
    assert_eq!(pos, 3);
    let mut pos = 0;
    assert_eq!(lre_parse_escape(b"1", &mut pos, 2), -1);
    let mut pos = 0;
    assert_eq!(lre_parse_escape(b"q", &mut pos, 0), -2);
    let mut pos = 0;
    assert_eq!(lre_parse_escape(b"u{110000}", &mut pos, 1), -1);
}

#[test]
fn class_intervals_are_canonical() {
    let v = insert_interval(&vec![(1, 3), (10, 12)], 4, 9);
    assert_eq!(v, vec![(1, 12)]);
    let v = insert_interval(&vec![(1, 3), (10, 12)], 6, 7);
    assert_eq!(v, vec![(1, 3), (6, 7), (10, 12)]);
    assert_eq!(complement(&vec![(0, 9), (20, 0x10FFFF)]), vec![(10, 19)]);
    assert_eq!(builtin_intervals(BuiltinClass::NotDigit), vec![(0, 0x2F), (0x3A, 0x10FFFF)]);
    let items = vec![ClassRange::Single('c'), ClassRange::Range('a', 'b'), ClassRange::Single('x')];
    assert_eq!(class_ranges(&items, false), Ok(vec![(0x61, 0x63), (0x78, 0x78)]));
    assert_eq!(class_ranges(&vec![ClassRange::Range('b', 'a')], false), Err(()));
}

#[test]
fn group_names_and_hex_escapes() {
    match parse("(?<ab_1>x)", Flags::empty()).unwrap() {
        Node::Capture { name: Some(n), .. } => assert_eq!(n, "ab_1"),
        other => panic!("expected Capture, got {:?}", other),
    }
    let e = parse("(?<a-b>x)", Flags::empty()).unwrap_err();
    assert_eq!(e.message(), "invalid character in group name: '-'");
    assert!(matches!(parse("\\x41", Flags::empty()).unwrap(), Node::Literal('A')));
}

#[test]
fn builder_patches_jumps() {
    let mut b = BytecodeBuilder::new();
    let p = b.emit_goto(OpCode::Goto, 0);
    b.emit_op(OpCode::Match);
    b.patch_goto(p, 0);
    assert_eq!(b.into_vec(), vec![13, 0xFB, 0xFF, 0xFF, 0xFF, 16]);
}

#[test]
fn generator_header_and_body() {
    let mut g = CodeGenerator::new(Flags::from_bits(Flags::STICKY), 0);
    g.compile(&Node::Dot).unwrap();
    assert_eq!(g.into_bytecode(), vec![32, 0, 1, 0, 6, 0, 0, 0, 19, 0, 5, 20, 0, 16]);
}

#[test]
fn fresh_generator_writes_zero_captures() {
    let g = CodeGenerator::new(Flags::from_bits(32), 0);
    assert_eq!(g.into_bytecode(), vec![32, 0, 0, 0, 0, 0, 0, 0]);
}

#[test]
fn first_way_in_backtracking_order() {
    // greedy repetition takes as many copies as it can, lazy as few
    assert_eq!(run("(a+)(a*)", Flags::empty(), "aaa"), (ExecResult::Match, vec![Some(0), Some(3), Some(0), Some(3), Some(3), Some(3)]));
    assert_eq!(run("(a+?)(a*)", Flags::empty(), "aaa"), (ExecResult::Match, vec![Some(0), Some(3), Some(0), Some(1), Some(1), Some(3)]));
    // alternatives are tried in order, and the first that lets the rest match wins
    assert_eq!(run("(ab|a)(bc)?", Flags::empty(), "abc"), (ExecResult::Match, vec![Some(0), Some(2), Some(0), Some(2), None, None]));
    // bounded repetition backtracks to fewer copies
    assert_eq!(run("^(\\d{1,3})3", Flags::empty(), "123"), (ExecResult::Match, vec![Some(0), Some(3), Some(0), Some(2)]));
    // classes, negated classes and case folding
    assert_eq!(run("[^a-c]+", Flags::empty(), "abxyzc"), (ExecResult::Match, vec![Some(2), Some(5)]));
    assert_eq!(run("[a-c]+", Flags::from_bits(Flags::IGNORE_CASE), "xAbC"), (ExecResult::Match, vec![Some(1), Some(4)]));
    assert_eq!(run("\\w+\\s\\w+", Flags::empty(), "-hi there-"), (ExecResult::Match, vec![Some(1), Some(9)]));
    // a lookahead keeps the position, its captures stay
    assert_eq!(run("(?=(\\d+))\\d", Flags::empty(), "x42"), (ExecResult::Match, vec![Some(1), Some(2), Some(1), Some(3)]));
}

#[test]
fn back_reference_repeats_the_group() {
    assert_eq!(run("(a|b)\\1", Flags::empty(), "xabb"), (ExecResult::Match, vec![Some(2), Some(4), Some(2), Some(3)]));
    assert_eq!(run("(a)\\1", Flags::from_bits(Flags::IGNORE_CASE), "xaA"), (ExecResult::Match, vec![Some(1), Some(3), Some(1), Some(2)]));
    assert_eq!(run("^(a)\\1", Flags::empty(), "ab").0, ExecResult::NoMatch);
}
