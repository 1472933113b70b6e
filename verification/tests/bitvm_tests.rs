use quickjs_regex::bitvm::{instruction_size, BitState, BitVmProgram};
use quickjs_regex::compiler::compile_regex;
use quickjs_regex::Flags;

fn bit_count(pattern: &str, text: &str) -> usize {
    let bc = compile_regex(pattern, Flags::empty()).unwrap();
    let prog = BitVmProgram::compile(&bc).expect("pattern should fit in bit VM");
    prog.count_matches(text.as_bytes())
}

fn bit_has_match(pattern: &str, text: &str) -> bool {
    let bc = compile_regex(pattern, Flags::empty()).unwrap();
    let prog = BitVmProgram::compile(&bc).expect("pattern should fit in bit VM");
    prog.has_match(text.as_bytes())
}

#[test]
fn bitvm_test_literal() {
    assert!(bit_has_match("abc", "xabcx"));
    assert!(!bit_has_match("abc", "abd"));
}

#[test]
fn test_count() {
    assert_eq!(bit_count("ab", "ababab"), 3);
}

#[test]
fn bitvm_test_alternation() {
    assert!(bit_has_match("cat|dog", "a dog"));
    assert!(!bit_has_match("cat|dog", "cow"));
}

#[test]
fn bitvm_test_char_class() {
    assert_eq!(bit_count("[0-9]+", "a1b22c333"), 3);
}

#[test]
fn bitvm_test_dot() {
    assert!(bit_has_match("a.c", "abc"));
    assert!(!bit_has_match("a.c", "a\nc"));
}

#[test]
fn test_no_catastrophic() {
    // Pattern that causes exponential backtracking in backtrackers
    // Bit-parallel handles it in linear time
    let text = "a".repeat(30) + "b";
    assert!(!bit_has_match("(a+)+c", &text));
}

#[test]
fn test_large_alternation() {
    let mut parts = Vec::new();
    for i in 0..50 {
        parts.push(format!("word{:02}", i));
    }
    let pattern = parts.join("|");
    assert!(bit_has_match(&pattern, "xword42x"));
    assert_eq!(bit_count(&pattern, "word01 word25 word49"), 3);
}

// === More cases ===

#[test]
fn bitvm_refuses_non_byte_literal() {
    let bc = compile_regex("Ш", Flags::empty()).unwrap();
    assert!(BitVmProgram::compile(&bc).is_none());
    assert!(BitVmProgram::compile(&[1, 2, 3]).is_none());
}

#[test]
fn bitvm_find_match_end_and_start() {
    let bc = compile_regex("b+", Flags::empty()).unwrap();
    let prog = BitVmProgram::compile(&bc).unwrap();
    assert_eq!(prog.find_match_end(b"aabbbc", 0), Some(5));
    // leftmost-longest: the first position where a match begins
    assert_eq!(prog.find_match(b"aabbbc", 0), Some((2, 5)));
    assert_eq!(prog.find_match_end(b"aaa", 0), None);
    assert_eq!(prog.find_match(b"aaa", 0), None);
}

#[test]
fn bitvm_find_match_end_reuse_matches_allocating() {
    let bc = compile_regex("[0-9]+", Flags::empty()).unwrap();
    let prog = BitVmProgram::compile(&bc).unwrap();
    let mut curr = BitState::new(1);
    let mut next = BitState::new(1);
    let input = b"ab123cd45";
    for start in 0..input.len() {
        assert_eq!(prog.find_match_end_reuse(input, start, &mut curr, &mut next),
                   prog.find_match_end(input, start));
    }
    assert_eq!(prog.find_match_end(input, 0), Some(5));
}

#[test]
fn bitvm_count_zero_iff_no_match() {
    for (p, t) in [("ab", "xxab"), ("ab", "ba"), ("x+", "yyy"), ("x+", "yxy")] {
        assert_eq!(bit_count(p, t) > 0, bit_has_match(p, t));
    }
}

#[test]
fn instruction_size_table() {
    // char: opcode + u16
    assert_eq!(instruction_size(&[1, 0x61, 0], 0), 3);
    // range with two pairs: 3 + 2 * 4
    assert_eq!(instruction_size(&[36, 2, 0, 0, 0, 0, 0, 0, 0, 0, 0], 0), 11);
    // back reference to one group
    assert_eq!(instruction_size(&[32, 1, 1], 0), 3);
    // out of range
    assert_eq!(instruction_size(&[16], 5), 1);
    // goto
    assert_eq!(instruction_size(&[13, 0, 0, 0, 0], 0), 5);
}

#[test]
fn bitstate_new_sizes() {
    assert_eq!(BitState::new(0).words.len(), 0);
    assert_eq!(BitState::new(1).words.len(), 1);
    assert_eq!(BitState::new(64).words.len(), 1);
    assert_eq!(BitState::new(65).words.len(), 2);
}

#[test]
fn bitvm_wide_alternations_share_dense_closures() {
    // each state of the first group is followed by the eleven states of the
    // second: closures too large to list one by one, shared by all
    let group = "(?:a|b|c|d|e|f|g|h|i|j|k)";
    let pattern = format!("{}{}", group, group);
    let bc = compile_regex(&pattern, Flags::empty()).unwrap();
    let prog = BitVmProgram::compile(&bc).expect("pattern should fit in bit VM");
    assert_eq!(prog.find_match_end(b"zzdkzz", 0), Some(4));
    assert_eq!(prog.find_match(b"zzdkzz", 0), Some((2, 4)));
    assert!(prog.has_match(b"zzdk"));
    assert!(!prog.has_match(b"zdzkz"));
    assert_eq!(prog.count_matches(b"ab cd ef"), 3);
    let mut curr = BitState::new(1);
    let mut next = BitState::new(1);
    assert_eq!(prog.find_match_end_reuse(b"zzdkzz", 0, &mut curr, &mut next), Some(4));
}

#[test]
fn bitvm_few_followers() {
    // three followers after 'a': listed one by one
    assert!(bit_has_match("a(?:x|y|z)", "qay"));
    assert!(!bit_has_match("a(?:x|y|z)", "qaw"));
    assert_eq!(bit_count("a(?:x|y|z)", "ax ay az aw"), 3);
}

/// Non-sticky `/ab/` as the compiler emits it: the search loop, then the body.
const AB_UNANCHORED: [u8; 30] = [
    0, 0, 1, 0, 22, 0, 0, 0, 14, 6, 0, 0, 0, 6, 13, 0xF5, 0xFF, 0xFF, 0xFF, 19, 0, 1, 0x61, 0, 1,
    0x62, 0, 20, 0, 16,
];

#[test]
fn bitvm_leftmost_match_ends_at_its_own_end() {
    let prog = BitVmProgram::compile(&AB_UNANCHORED).unwrap();
    assert_eq!(prog.find_match_end(b"abab", 0), Some(2));
    assert_eq!(prog.find_match_end(b"abab", 1), Some(4));
    assert_eq!(prog.find_match(b"xxab", 0), Some((2, 4)));
    assert_eq!(prog.find_match(b"xxab", 3), None);
    assert_eq!(prog.count_matches(b"abab"), 2);
}

#[test]
fn bitvm_compiled_output_agrees_with_hand_bytecode() {
    let bc = compile_regex("ab", Flags::empty()).unwrap();
    assert_eq!(bc, AB_UNANCHORED.to_vec());
}

#[test]
fn bitvm_empty_matches() {
    // a* matches the empty string: on empty input too
    assert!(bit_has_match("a*", ""));
    let bc = compile_regex("a*", Flags::empty()).unwrap();
    let prog = BitVmProgram::compile(&bc).unwrap();
    assert_eq!(prog.find_match(b"", 0), Some((0, 0)));
    assert_eq!(prog.find_match(b"baa", 0), Some((0, 0)));
    assert_eq!(prog.find_match(b"baa", 1), Some((1, 3)));
    // "", then "aa", then "" at the end
    assert_eq!(prog.count_matches(b"baa"), 3);
    assert_eq!(prog.find_match(b"b", 2), None);
}

#[test]
fn bitvm_counts_adjacent_matches() {
    assert_eq!(bit_count("a", "aa"), 2);
    assert_eq!(bit_count("a", ""), 0);
    assert!(!bit_has_match("a", ""));
}

#[test]
fn bitvm_reuse_buffers_take_the_set_size() {
    let prog = BitVmProgram::compile(&AB_UNANCHORED).unwrap();
    let mut curr = BitState::new(500);
    let mut next = BitState::new(0);
    assert_eq!(prog.find_match_end_reuse(b"xab", 0, &mut curr, &mut next), Some(3));
    assert_eq!(curr.words.len(), next.words.len());
    assert_eq!(curr.words.len(), 1);
}

#[test]
fn bitvm_search_from_equals_search_of_suffix() {
    let prog = BitVmProgram::compile(&AB_UNANCHORED).unwrap();
    let input = b"xabyab";
    for from in 0..=input.len() {
        let shifted = prog.find_match(&input[from..], 0).map(|(s, e)| (s + from, e + from));
        assert_eq!(prog.find_match(input, from), shifted);
    }
}
