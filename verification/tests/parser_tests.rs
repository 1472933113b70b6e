use quickjs_regex::ast::{AnchorKind, BuiltinClass, ClassRange, Node};
use quickjs_regex::parser::{count_captures, parse};
use quickjs_regex::Flags;

fn p(pattern: &str) -> Node {
    parse(pattern, Flags::empty()).expect(&format!("failed to parse: {}", pattern))
}

#[test]
fn parser_test_literal() {
    match p("abc") {
        Node::Concat(nodes) => {
            assert_eq!(nodes.len(), 3);
            assert!(matches!(nodes[0], Node::Literal('a')));
        }
        _ => panic!("expected Concat"),
    }
}

#[test]
fn parser_test_dot() {
    assert!(matches!(p("."), Node::Dot));
}

#[test]
fn parser_test_alternation() {
    match p("a|b") {
        Node::Alternation(alts) => assert_eq!(alts.len(), 2),
        _ => panic!("expected Alternation"),
    }
}

#[test]
fn test_quantifiers() {
    match p("a*") {
        Node::Repeat { min: 0, max: None, greedy: true, .. } => {}
        other => panic!("expected Repeat, got {:?}", other),
    }
    match p("a+?") {
        Node::Repeat { min: 1, max: None, greedy: false, .. } => {}
        other => panic!("expected lazy Repeat, got {:?}", other),
    }
    match p("a{2,5}") {
        Node::Repeat { min: 2, max: Some(5), greedy: true, .. } => {}
        other => panic!("expected bounded Repeat, got {:?}", other),
    }
}

#[test]
fn parser_test_capture_group() {
    match p("(a)") {
        Node::Capture { index: 1, name: None, .. } => {}
        other => panic!("expected Capture, got {:?}", other),
    }
}

#[test]
fn parser_test_non_capturing_group() {
    match p("(?:a)") {
        Node::Group(_) => {}
        other => panic!("expected Group, got {:?}", other),
    }
}

#[test]
fn parser_test_backreference() {
    match p(r"(a)\1") {
        Node::Concat(nodes) => {
            assert!(matches!(nodes[1], Node::BackRef(1)));
        }
        other => panic!("expected Concat with BackRef, got {:?}", other),
    }
}

#[test]
fn test_lookahead() {
    match p("a(?=b)") {
        Node::Concat(nodes) => {
            assert!(matches!(nodes[1], Node::Lookahead { negative: false, .. }));
        }
        other => panic!("expected Concat with Lookahead, got {:?}", other),
    }
}

#[test]
fn parser_test_negative_lookahead() {
    match p("a(?!b)") {
        Node::Concat(nodes) => {
            assert!(matches!(nodes[1], Node::Lookahead { negative: true, .. }));
        }
        other => panic!("expected Concat with negative Lookahead, got {:?}", other),
    }
}

#[test]
fn test_lookbehind() {
    match p("(?<=a)b") {
        Node::Concat(nodes) => {
            assert!(matches!(nodes[0], Node::Lookbehind { negative: false, .. }));
        }
        other => panic!("expected Concat with Lookbehind, got {:?}", other),
    }
}

#[test]
fn test_character_class() {
    match p("[a-z]") {
        Node::Class { ranges, negated: false } => {
            assert_eq!(ranges.len(), 1);
            assert!(matches!(ranges[0], ClassRange::Range('a', 'z')));
        }
        other => panic!("expected Class, got {:?}", other),
    }
}

#[test]
fn test_negated_class() {
    match p("[^0-9]") {
        Node::Class { negated: true, .. } => {}
        other => panic!("expected negated Class, got {:?}", other),
    }
}

#[test]
fn test_builtin_escapes() {
    assert!(matches!(p(r"\d"), Node::Builtin(BuiltinClass::Digit)));
    assert!(matches!(p(r"\w"), Node::Builtin(BuiltinClass::Word)));
    assert!(matches!(p(r"\s"), Node::Builtin(BuiltinClass::Space)));
}

#[test]
fn parser_test_anchors() {
    assert!(matches!(p("^"), Node::Anchor(AnchorKind::Start)));
    assert!(matches!(p("$"), Node::Anchor(AnchorKind::End)));
}

#[test]
fn test_unicode_escape() {
    match p(r"\u0041") {
        Node::Literal('A') => {}
        other => panic!("expected Literal('A'), got {:?}", other),
    }
}

#[test]
fn test_named_group() {
    match p("(?<name>a)") {
        Node::Capture { index: 1, name: Some(ref n), .. } if n == "name" => {}
        other => panic!("expected named Capture, got {:?}", other),
    }
}

#[test]
fn test_complex_pattern() {
    let _ = p(r"(\r\n|\r|\n)|([\t\v\f ]+)|([a-zA-Z_][0-9a-zA-Z_]*)|([0-9]+)|(.)");
}

#[test]
fn parser_test_aws_keys_pattern() {
    let _ = p(r"((?:ASIA|AKIA|AROA|AIDA)([A-Z0-7]{16}))");
}

// === Errors and counting ===

#[test]
fn parse_rejects_unclosed_group() {
    let e = parse("(unclosed", Flags::empty()).unwrap_err();
    assert_eq!(e.message(), "expected ')', got end of pattern");
}

#[test]
fn parse_rejects_unexpected_close() {
    let e = parse("a)b", Flags::empty()).unwrap_err();
    assert_eq!(e.message(), "unexpected character ')' at position 1");
}

#[test]
fn parse_rejects_nothing_to_repeat() {
    let e = parse("*a", Flags::empty()).unwrap_err();
    assert_eq!(e.message(), "nothing to repeat at position 0");
    assert_eq!(e.to_string(), "Regex compiler error: nothing to repeat at position 0");
}

#[test]
fn parse_rejects_trailing_backslash() {
    let e = parse("ab\\", Flags::empty()).unwrap_err();
    assert_eq!(e.message(), "trailing backslash");
}

#[test]
fn parse_rejects_unterminated_class() {
    let e = parse("[abc", Flags::empty()).unwrap_err();
    assert_eq!(e.message(), "unterminated character class");
}

#[test]
fn parse_rejects_bad_hex_escape() {
    let e = parse("\\xZZ", Flags::empty()).unwrap_err();
    assert_eq!(e.message(), "invalid hex escape");
}

#[test]
fn parse_literal_brace_when_not_a_quantifier() {
    match p("{x") {
        Node::Concat(nodes) => {
            assert_eq!(nodes.len(), 2);
            assert!(matches!(nodes[0], Node::Literal('{')));
        }
        other => panic!("expected Concat, got {:?}", other),
    }
    // after an atom, a brace that opens no quantifier is a literal too
    match p("a{x}") {
        Node::Concat(nodes) => {
            assert_eq!(nodes.len(), 4);
            assert!(matches!(nodes[1], Node::Literal('{')));
            assert!(matches!(nodes[3], Node::Literal('}')));
        }
        other => panic!("expected Concat, got {:?}", other),
    }
    // a malformed upper bound is still an error
    assert!(parse("a{1,2x", Flags::empty()).is_err());
}

#[test]
fn parse_large_backreference_saturates() {
    match p(r"\99999999999") {
        Node::BackRef(n) => assert_eq!(n, u32::MAX),
        other => panic!("expected BackRef, got {:?}", other),
    }
}

#[test]
fn count_captures_counts_groups() {
    assert_eq!(count_captures("(a)(b(c))(?:d)(?<n>e)", Flags::empty()).unwrap(), 4);
    assert_eq!(count_captures("abc", Flags::empty()).unwrap(), 0);
}

#[test]
fn parse_unicode_brace_escape() {
    match p(r"\u{1F600}") {
        Node::Literal(c) => assert_eq!(c as u32, 0x1F600),
        other => panic!("expected Literal, got {:?}", other),
    }
}

#[test]
fn parse_unicode_property_class() {
    match p(r"\p{L}") {
        Node::Class { negated: false, ranges } => assert!(!ranges.is_empty()),
        other => panic!("expected Class, got {:?}", other),
    }
}

#[test]
fn parse_refuses_reversed_class_range() {
    let e = parse("[z-a]", Flags::empty()).unwrap_err();
    assert_eq!(e.kind(), quickjs_regex::error::ErrorKind::InvalidClassRange);
    assert!(parse("[a-z]", Flags::empty()).is_ok());
    assert!(parse("[a-a]", Flags::empty()).is_ok());
}

fn capture_indices(n: &Node, out: &mut Vec<u32>) {
    match n {
        Node::Capture { index, sub, .. } => {
            out.push(*index);
            capture_indices(sub, out);
        }
        Node::Group(sub) | Node::Lookahead { sub, .. } | Node::Lookbehind { sub, .. } | Node::Repeat { sub, .. } => {
            capture_indices(sub, out)
        }
        Node::Concat(v) | Node::Alternation(v) => {
            for x in v {
                capture_indices(x, out);
            }
        }
        _ => {}
    }
}

#[test]
fn captures_numbered_in_opening_order() {
    let pattern = "(a(b))|(?:c(?<n>d))(?=(e))+";
    let mut idx = Vec::new();
    capture_indices(&p(pattern), &mut idx);
    assert_eq!(idx, vec![1, 2, 3, 4]);
    assert_eq!(count_captures(pattern, Flags::empty()).unwrap(), 4);
}
