use quickjs_regex::passes::{compute_register_count, re_need_check_adv_and_capture_init, reopcode_info};

fn with_header(body: &[u8]) -> Vec<u8> {
    let mut v = vec![0u8; 8];
    v.extend_from_slice(body);
    v
}

#[test]
fn register_count_single_loop() {
    // set_i32 r, 5 ; loop r, +0 ; match
    let mut bc = with_header(&[27, 0xff, 5, 0, 0, 0, 22, 0xff, 0, 0, 0, 0, 16]);
    let r = compute_register_count(&mut bc);
    assert_eq!(r, 1);
    assert_eq!(bc[9], 0);
    assert_eq!(bc[15], 0);
    assert_eq!(&bc[..8], &[0u8; 8]);
}

#[test]
fn register_count_nested_registers() {
    // set_i32 ; set_char_pos ; loop_check_adv_split_goto_first (releases two) ; match
    let mut bc = with_header(&[
        27, 0xee, 1, 0, 0, 0, 42, 0xee, 25, 0xee, 0, 0, 0, 0, 0, 0, 0, 0, 16,
    ]);
    let r = compute_register_count(&mut bc);
    assert_eq!(r, 2);
    assert_eq!(bc[8 + 1], 0);
    assert_eq!(bc[8 + 7], 1);
    assert_eq!(bc[8 + 9], 0);
}

#[test]
fn register_count_skips_ranges_and_backrefs() {
    // range with one interval (4 bytes), back_reference to two groups, set_char_pos, check_advance
    let mut bc = with_header(&[36, 1, 0, b'a', 0, b'z', 0, 32, 2, 1, 2, 42, 9, 43, 9, 16]);
    let r = compute_register_count(&mut bc);
    assert_eq!(r, 1);
    assert_eq!(bc[8 + 12], 0);
    assert_eq!(bc[8 + 14], 0);
    // operands of the range and the back reference are left alone
    assert_eq!(&bc[8..19], &[36, 1, 0, b'a', 0, b'z', 0, 32, 2, 1, 2]);
}

#[test]
fn register_count_without_body() {
    let mut short = vec![1u8, 2, 3];
    assert_eq!(compute_register_count(&mut short), 0);
    assert_eq!(short, vec![1u8, 2, 3]);
    let mut empty = with_header(&[]);
    assert_eq!(compute_register_count(&mut empty), 0);
    let mut plain = with_header(&[1, b'a', 0, 16]);
    assert_eq!(compute_register_count(&mut plain), 0);
    assert_eq!(plain, with_header(&[1, b'a', 0, 16]));
}

#[test]
fn register_count_too_many() {
    let mut body = Vec::new();
    for _ in 0..256 {
        body.push(42u8);
        body.push(0u8);
    }
    let mut bc = with_header(&body);
    assert_eq!(compute_register_count(&mut bc), -1);
    let mut body = Vec::new();
    for _ in 0..255 {
        body.push(42u8);
        body.push(0u8);
    }
    let mut bc = with_header(&body);
    assert_eq!(compute_register_count(&mut bc), 255);
    assert_eq!(bc[8 + 2 * 254 + 1], 254);
}

#[test]
fn opcode_table_sizes() {
    assert_eq!(reopcode_info(0).size, 1);
    assert_eq!(reopcode_info(1).size, 3);
    assert_eq!(reopcode_info(3).size, 5);
    assert_eq!(reopcode_info(14).size, 5);
    assert_eq!(reopcode_info(21).size, 3);
    assert_eq!(reopcode_info(22).size, 6);
    assert_eq!(reopcode_info(26).size, 10);
    assert_eq!(reopcode_info(27).size, 6);
    assert_eq!(reopcode_info(32).size, 2);
    assert_eq!(reopcode_info(38).size, 3);
    assert_eq!(reopcode_info(41).size, 5);
    assert_eq!(reopcode_info(43).size, 2);
    assert_eq!(reopcode_info(44).size, 1);
}

#[test]
fn check_adv_consuming_body() {
    let mut init = true;
    assert!(!re_need_check_adv_and_capture_init(&mut init, &[1, b'a', 0]));
    assert!(!init);
    let mut init = true;
    assert!(!re_need_check_adv_and_capture_init(&mut init, &[19, 1, 36, 1, 0, b'0', 0, b'9', 0, 20, 1]));
    assert!(!init);
}

#[test]
fn check_adv_empty_or_assertion_body() {
    let mut init = true;
    assert!(re_need_check_adv_and_capture_init(&mut init, &[]));
    assert!(!init);
    let mut init = true;
    assert!(re_need_check_adv_and_capture_init(&mut init, &[9, 28, 19, 0, 20, 0]));
    assert!(!init);
}

#[test]
fn check_adv_back_reference_and_jumps() {
    let mut init = false;
    assert!(re_need_check_adv_and_capture_init(&mut init, &[32, 1, 1]));
    assert!(init);
    let mut init = false;
    // a split stops the walk: the char after it is not seen
    assert!(re_need_check_adv_and_capture_init(&mut init, &[14, 0, 0, 0, 0, 1, b'a', 0]));
    assert!(init);
    let mut init = false;
    assert!(!re_need_check_adv_and_capture_init(&mut init, &[1, b'a', 0, 13, 0, 0, 0, 0]));
    assert!(init);
}
