use quickjs_regex::compiler::compile_regex;
use quickjs_regex::interpreter::{ExecContext, ExecResult};
use quickjs_regex::Flags;

fn find(pattern: &str, text: &str) -> Option<(usize, usize)> {
    let bc = compile_regex(pattern, Flags::empty()).expect("compile failed");
    let mut ctx = ExecContext::new(&bc, text.as_bytes());
    match ctx.exec(0) {
        ExecResult::Match => Some((ctx.captures[0].unwrap(), ctx.captures[1].unwrap())),
        _ => None,
    }
}

#[test]
fn positive_lookbehind() {
    assert_eq!(find("(?<=a)b", "ab"), Some((1, 2)));
    assert_eq!(find("(?<=a)b", "cb"), None);
    assert_eq!(find("(?<=ab)c", "xabc"), Some((3, 4)));
    assert_eq!(find("(?<=ab)c", "bbc"), None);
}

#[test]
fn negative_lookbehind() {
    assert_eq!(find("(?<!a)b", "cb"), Some((1, 2)));
    assert_eq!(find("(?<!a)b", "ab"), None);
    assert_eq!(find("(?<!a)b", "abb"), Some((2, 3)));
}

#[test]
fn lookbehind_over_multibyte_characters() {
    assert_eq!(find("(?<=é)x", "éx"), Some((2, 3)));
    assert_eq!(find("(?<=.)x", "éx"), Some((2, 3)));
    assert_eq!(find("(?<=[é-ê])x", "êx"), Some((2, 3)));
}

#[test]
fn lookbehind_captures_and_alternatives() {
    let bc = compile_regex("(?<=(a|bc))d", Flags::empty()).unwrap();
    let mut ctx = ExecContext::new(&bc, b"xbcd");
    assert_eq!(ctx.exec(0), ExecResult::Match);
    assert_eq!(ctx.captures[0], Some(3));
    assert_eq!(ctx.captures[2], Some(1));
    assert_eq!(ctx.captures[3], Some(3));
}

#[test]
fn lookbehind_back_reference() {
    assert_eq!(find("(a)(?<=\\1)b", "ab"), Some((0, 2)));
    assert_eq!(find("(a+)(?<=\\1)b", "aab"), Some((0, 3)));
}

#[test]
fn lookbehind_bytecode() {
    let bc = compile_regex("(?<=a)b", Flags::from_bits(Flags::STICKY)).unwrap();
    assert_eq!(
        &bc[8..],
        &[19, 0, 40, 6, 0, 0, 0, 44, 1, b'a', 0, 44, 17, 1, b'b', 0, 20, 0, 16]
    );
    assert_eq!(bc[3], 0);
}
