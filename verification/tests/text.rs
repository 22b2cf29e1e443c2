use lib::text::{is_whitespace, parse_usize, str_equals};

#[test]
fn whitespace_matches_std_for_every_char() {
    for u in 0u32..=0x10FFFF {
        if let Some(c) = char::from_u32(u) {
            assert_eq!(is_whitespace(c), c.is_whitespace(), "char {:#x}", u);
        }
    }
}

#[test]
fn parse_usize_matches_std() {
    let cases = [
        "0", "7", "42", "+5", "+", "-1", "", " 1", "1 ", "12a", "007", "18446744073709551615",
        "18446744073709551616", "99999999999999999999999", "+0", "++1", "٣",
    ];
    for s in cases {
        assert_eq!(parse_usize(s), s.parse::<usize>().ok(), "input {:?}", s);
    }
}

#[test]
fn str_equals_compares_characters() {
    assert!(str_equals("abc", "abc"));
    assert!(!str_equals("abc", "abd"));
    assert!(!str_equals("abc", "ab"));
    assert!(str_equals("", ""));
    assert!(str_equals("日本", "日本"));
}
