use quickjs_regex::group_names::{find_group_name, is_duplicate_group_name, re_count_captures};

#[test]
fn count_captures_plain_and_named() {
    assert_eq!(re_count_captures(b"abc"), (1, false));
    assert_eq!(re_count_captures(b"(a)(b)"), (3, false));
    assert_eq!(re_count_captures(b"(?:a)(b)"), (2, false));
    assert_eq!(re_count_captures(b"(?<year>\\d+)-(?<m>\\d+)"), (3, true));
    assert_eq!(re_count_captures(b"(?<=a)(?<!b)(?=c)(?!d)"), (1, false));
}

#[test]
fn count_captures_skips_escapes_and_classes() {
    assert_eq!(re_count_captures(b"\\(a\\)"), (1, false));
    assert_eq!(re_count_captures(b"[(](x)"), (2, false));
    assert_eq!(re_count_captures(b"[\\](](y)"), (2, false));
    assert_eq!(re_count_captures(b"[()"), (1, false));
    assert_eq!(re_count_captures(b"a\\"), (1, false));
    assert_eq!(re_count_captures(b"(?<"), (2, true));
}

#[test]
fn count_captures_caps_at_limit() {
    let mut p = Vec::new();
    for _ in 0..300 {
        p.extend_from_slice(b"(a)");
    }
    assert_eq!(re_count_captures(&p), (255, false));
    let mut q = Vec::new();
    for _ in 0..253 {
        q.extend_from_slice(b"(a)");
    }
    assert_eq!(re_count_captures(&q), (254, false));
}

fn table(entries: &[(&str, u8)]) -> Vec<u8> {
    let mut t = Vec::new();
    for (name, scope) in entries {
        t.extend_from_slice(name.as_bytes());
        t.push(0);
        t.push(*scope);
    }
    t
}

#[test]
fn find_group_name_counts_and_emits() {
    let t = table(&[("year", 0), ("", 0), ("m", 1), ("year", 2)]);
    let mut out = vec![9u8];
    assert_eq!(find_group_name(&t, b"year", true, &mut out), 2);
    assert_eq!(out, vec![9u8, 1, 4]);
    let mut out2 = Vec::new();
    assert_eq!(find_group_name(&t, b"m", false, &mut out2), 1);
    assert!(out2.is_empty());
    assert_eq!(find_group_name(&t, b"ye", true, &mut out2), 0);
    assert!(out2.is_empty());
    assert_eq!(find_group_name(&[], b"year", true, &mut out2), 0);
}

#[test]
fn duplicate_group_name_by_scope() {
    let t = table(&[("a", 0), ("b", 1), ("a", 2)]);
    assert!(is_duplicate_group_name(&t, b"a", 0));
    assert!(is_duplicate_group_name(&t, b"a", 2));
    assert!(!is_duplicate_group_name(&t, b"a", 1));
    assert!(is_duplicate_group_name(&t, b"b", 1));
    assert!(!is_duplicate_group_name(&t, b"c", 0));
    assert!(!is_duplicate_group_name(&[], b"a", 0));
}
