//! Texts and bytes.
use flexinput_btle::bytes::{join16, join32, push16, push32, push64, reverse6};
use flexinput_btle::text::{
    chars_of, contains, parse_hex_byte, parse_u32, push_decimal, push_hex, string_of, to_lower,
    trim, with_byte, with_word,
};

#[test]
fn numbers_are_split_and_joined() {
    let mut v = Vec::new();
    push16(&mut v, 0x1234);
    push32(&mut v, 0x89AB_CDEF);
    push64(&mut v, 0x0102_0304_0506_0708);
    assert_eq!(v, vec![0x34, 0x12, 0xEF, 0xCD, 0xAB, 0x89, 8, 7, 6, 5, 4, 3, 2, 1]);
    assert_eq!(join16(v[0], v[1]), 0x1234);
    assert_eq!(join32(v[2], v[3], v[4], v[5]), 0x89AB_CDEF);
    assert_eq!(reverse6(reverse6([1, 2, 3, 4, 5, 6])), [1, 2, 3, 4, 5, 6]);
    assert_eq!(reverse6([1, 2, 3, 4, 5, 6]), [6, 5, 4, 3, 2, 1]);
}

#[test]
fn numbers_are_spelled() {
    assert_eq!(with_byte("0x", 0x0A), "0x0a");
    assert_eq!(with_word("0x", 0x1A), "0x001a");
    let mut s = String::new();
    push_decimal(&mut s, 0);
    push_decimal(&mut s, 1090);
    push_hex(&mut s, &[0xDE, 0x01]);
    assert_eq!(s, "01090de01");
}

#[test]
fn texts_are_taken_apart() {
    let c = chars_of(" \t a b\u{2003}");
    assert_eq!(string_of(trim(&c)), "a b");
    assert!(trim(&chars_of(" \n ")).is_empty());
    assert_eq!(parse_hex_byte(&chars_of("Fe")), Some(0xFE));
    assert_eq!(parse_hex_byte(&chars_of("fg")), None);
    assert_eq!(string_of(&to_lower(&chars_of("AbZ9"))), "abz9");
    assert!(contains("xaab", "aab") && contains("x", "") && !contains("ab", "abc"));
}

#[test]
fn numbers_are_read() {
    assert_eq!(parse_u32("42"), Some(42));
    assert_eq!(parse_u32("+7"), Some(7));
    assert_eq!(parse_u32("4294967295"), Some(4294967295));
    assert_eq!(parse_u32("4294967296"), None);
    assert_eq!(parse_u32(""), None);
    assert_eq!(parse_u32("+"), None);
    assert_eq!(parse_u32("-1"), None);
    assert_eq!(parse_u32("1 "), None);
}
