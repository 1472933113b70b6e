use quickjs_regex::escape::{from_surrogate, is_hi_surrogate, is_lo_surrogate};
use quickjs_regex::emit::{
    cr_add_interval, cr_add_point, parse_digits, re_emit_char, re_emit_range, re_parse_modifiers,
    re_emit_string_list, update_modifier, CharRange, StringList,
};
use quickjs_regex::error::{kind_message, ErrorKind};
use quickjs_regex::BytecodeBuilder;

#[test]
fn emit_char_widths() {
    let mut b = BytecodeBuilder::new();
    re_emit_char(&mut b, false, 'a' as u32);
    re_emit_char(&mut b, true, 0x1234);
    re_emit_char(&mut b, false, 0x1F600);
    re_emit_char(&mut b, true, 0x10000);
    assert_eq!(
        b.into_vec(),
        vec![1, 0x61, 0, 2, 0x34, 0x12, 3, 0x00, 0xF6, 0x01, 0, 4, 0, 0, 1, 0]
    );
}

#[test]
fn emit_range_16_bit() {
    let mut b = BytecodeBuilder::new();
    // [a-z] and [0-9]: points are start / exclusive end
    let mut cr = CharRange::new();
    assert_eq!(cr_add_interval(&mut cr, 0x30, 0x3A), 0);
    assert_eq!(cr_add_interval(&mut cr, 0x61, 0x7B), 0);
    assert_eq!(cr.points, vec![0x30, 0x3A, 0x61, 0x7B]);
    assert_eq!(re_emit_range(&mut b, false, &cr), Ok(()));
    assert_eq!(b.into_vec(), vec![36, 2, 0, 0x30, 0, 0x39, 0, 0x61, 0, 0x7A, 0]);
    let mut b = BytecodeBuilder::new();
    // an interval to the end of the code space, case-insensitive
    let mut cr = CharRange::new();
    assert_eq!(cr_add_point(&mut cr, 0x100), 0);
    assert_eq!(cr_add_point(&mut cr, 0xFFFF_FFFF), 0);
    assert_eq!(re_emit_range(&mut b, true, &cr), Ok(()));
    assert_eq!(b.into_vec(), vec![37, 1, 0, 0x00, 0x01, 0xFF, 0xFF]);
}

#[test]
fn emit_range_32_bit() {
    let mut b = BytecodeBuilder::new();
    let cr = CharRange { points: vec![0x41, 0x1F601] };
    assert_eq!(re_emit_range(&mut b, false, &cr), Ok(()));
    assert_eq!(b.into_vec(), vec![38, 1, 0, 0x41, 0, 0, 0, 0x00, 0xF6, 0x01, 0]);
}

#[test]
fn emit_range_empty_and_too_many() {
    let mut b = BytecodeBuilder::new();
    assert_eq!(re_emit_range(&mut b, false, &CharRange::new()), Ok(()));
    assert_eq!(b.into_vec(), vec![3, 0xFF, 0xFF, 0xFF, 0xFF]);
    let cr = CharRange { points: (0..2 * 65535u32).collect() };
    let mut b = BytecodeBuilder::new();
    assert_eq!(re_emit_range(&mut b, false, &cr), Err(ErrorKind::TooManyRanges));
    assert!(b.into_vec().is_empty());
    assert_eq!(kind_message(ErrorKind::TooManyRanges), "too many ranges");
}

#[test]
fn parse_digits_values() {
    let mut p = 1;
    assert_eq!(parse_digits(b"{123,4}", &mut p, false), 123);
    assert_eq!(p, 4);
    let mut p = 0;
    assert_eq!(parse_digits(b"x", &mut p, false), 0);
    assert_eq!(p, 0);
    let mut p = 0;
    assert_eq!(parse_digits(b"2147483646", &mut p, false), 2147483646);
    assert_eq!(p, 10);
}

#[test]
fn parse_digits_overflow() {
    let mut p = 0;
    assert_eq!(parse_digits(b"2147483647", &mut p, false), -1);
    assert_eq!(p, 0);
    let mut p = 0;
    assert_eq!(parse_digits(b"99999999999999}", &mut p, true), 2147483647);
    assert_eq!(p, 14);
}

#[test]
fn modifiers_letters() {
    let mut p = 2;
    assert_eq!(re_parse_modifiers(b"(?ims:a)", &mut p), Ok(14));
    assert_eq!(p, 5);
    let mut p = 0;
    assert_eq!(re_parse_modifiers(b"-s:", &mut p), Ok(0));
    assert_eq!(p, 0);
    let mut p = 0;
    assert_eq!(re_parse_modifiers(b"si", &mut p), Ok(10));
    assert_eq!(p, 2);
}

#[test]
fn modifiers_duplicate() {
    let mut p = 0;
    assert_eq!(re_parse_modifiers(b"imi", &mut p), Err(ErrorKind::DuplicateModifier { c: 'i' }));
    assert_eq!(p, 0);
    assert_eq!(kind_message(ErrorKind::DuplicateModifier { c: 'i' }), "duplicate modifier: 'i'");
}

#[test]
fn update_modifier_rules() {
    assert!(update_modifier(false, 2, 0, 2));
    assert!(!update_modifier(true, 0, 2, 2));
    assert!(!update_modifier(true, 2, 2, 2));
    assert!(update_modifier(true, 4, 8, 2));
    assert!(!update_modifier(false, 4, 8, 2));
}

#[test]
fn surrogate_pairs() {
    assert!(is_hi_surrogate(0xD83D));
    assert!(!is_hi_surrogate(0xDE00));
    assert!(is_lo_surrogate(0xDE00));
    assert!(!is_lo_surrogate(0x41));
    assert_eq!(from_surrogate(0xD83D, 0xDE00), 0x1F600);
    assert_eq!(from_surrogate(0xD800, 0xDC00), 0x10000);
    assert_eq!(from_surrogate(0xDBFF, 0xDFFF), 0x10FFFF);
}

fn string_list(strings: &[&str], points: &[u32]) -> StringList {
    let mut cr = CharRange::new();
    for p in points {
        cr.points.push(*p);
    }
    StringList { strings: strings.iter().map(|s| s.chars().map(|c| c as u32).collect()).collect(), cr }
}

fn emit_list(strings: &[&str], points: &[u32]) -> Vec<u8> {
    let mut b = BytecodeBuilder::new();
    re_emit_string_list(&mut b, false, &string_list(strings, points)).unwrap();
    b.into_vec()
}

#[test]
fn string_list_longest_first_then_empty() {
    assert_eq!(
        emit_list(&["c", "", "ab"], &[]),
        vec![15, 11, 0, 0, 0, 1, 0x61, 0, 1, 0x62, 0, 13, 13, 0, 0, 0, 15, 8, 0, 0, 0, 1, 0x63, 0, 13, 0, 0, 0, 0]
    );
}

#[test]
fn string_list_last_string_alone() {
    assert_eq!(
        emit_list(&["c", "ab"], &[]),
        vec![15, 11, 0, 0, 0, 1, 0x61, 0, 1, 0x62, 0, 13, 3, 0, 0, 0, 1, 0x63, 0]
    );
}

#[test]
fn string_list_with_characters() {
    assert_eq!(
        emit_list(&["x"], &[0x61, 0x63]),
        vec![15, 8, 0, 0, 0, 1, 0x78, 0, 13, 7, 0, 0, 0, 36, 1, 0, 0x61, 0, 0x62, 0]
    );
    assert_eq!(
        emit_list(&["x", ""], &[0x61, 0x63]),
        vec![15, 8, 0, 0, 0, 1, 0x78, 0, 13, 12, 0, 0, 0, 15, 7, 0, 0, 0, 36, 1, 0, 0x61, 0, 0x62, 0]
    );
    assert_eq!(emit_list(&[], &[0x61, 0x63]), vec![36, 1, 0, 0x61, 0, 0x62, 0]);
}

#[test]
fn string_list_too_many_ranges() {
    let points: Vec<u32> = (0..65535u32).flat_map(|i| [2 * i, 2 * i + 1]).collect();
    let mut b = BytecodeBuilder::new();
    b.push(7);
    assert_eq!(re_emit_string_list(&mut b, false, &string_list(&["x"], &points)), Err(ErrorKind::TooManyRanges));
    assert_eq!(b.into_vec(), vec![7]);
    // with no characters, no range is emitted and the strings alone are fine
    assert_eq!(emit_list(&["x"], &[]), vec![1, 0x78, 0]);
}
