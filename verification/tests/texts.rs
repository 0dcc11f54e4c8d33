use promptkit::text::decimal_text;
use promptkit::text::has_final_newline;
use promptkit::text::is_whitespace_char;
use promptkit::text::join_lines;
use promptkit::text::push_decimal;
use promptkit::text::trim_end_of;

#[test]
fn decimal_numerals_have_no_leading_zeros() {
    assert_eq!(decimal_text(0), "0");
    assert_eq!(decimal_text(7), "7");
    assert_eq!(decimal_text(10), "10");
    assert_eq!(decimal_text(64000), "64000");
    assert_eq!(decimal_text(1_000_000_007), "1000000007");
}

#[test]
fn decimal_numeral_of_the_largest_number() {
    assert_eq!(decimal_text(u128::MAX), "340282366920938463463374607431768211455");
    assert_eq!(decimal_text(u64::MAX as u128), u64::MAX.to_string());
}

#[test]
fn push_decimal_appends() {
    let mut out = String::from("n=");
    push_decimal(&mut out, 42);
    assert_eq!(out, "n=42");
    push_decimal(&mut out, 0);
    assert_eq!(out, "n=420");
}

#[test]
fn white_space_is_what_the_standard_library_says() {
    let mut code: u32 = 0;
    while code <= 0x10FFFF {
        if let Some(c) = char::from_u32(code) {
            assert_eq!(is_whitespace_char(c), c.is_whitespace(), "U+{:04X}", code);
        }
        code += 1;
    }
}

#[test]
fn trailing_white_space_is_cut() {
    assert_eq!(trim_end_of("do it  \n\t"), "do it");
    assert_eq!(trim_end_of("  lead stays"), "  lead stays");
    assert_eq!(trim_end_of("a b \u{3000}\u{a0}"), "a b");
    assert_eq!(trim_end_of(" \n "), "");
    assert_eq!(trim_end_of(""), "");
    assert_eq!(trim_end_of("é\r\n"), "é");
}

#[test]
fn trimming_agrees_with_the_standard_library() {
    let samples = ["", " ", "a", "a ", " a ", "a\n\n", "\u{2028}x\u{2028}", "x\u{200b}", "日本 \u{2003}"];
    for s in samples {
        assert_eq!(trim_end_of(s), s.trim_end(), "{:?}", s);
    }
}

#[test]
fn final_newline_is_recognised() {
    assert!(has_final_newline("a\n"));
    assert!(has_final_newline("\n"));
    assert!(!has_final_newline("a"));
    assert!(!has_final_newline(""));
    assert!(!has_final_newline("a\n "));
    assert!(!has_final_newline("a\r"));
}

#[test]
fn lines_are_joined_with_line_feeds() {
    assert_eq!(join_lines(&vec![]), "");
    assert_eq!(join_lines(&vec!["one".to_string()]), "one");
    assert_eq!(join_lines(&vec!["one".to_string(), "two".to_string()]), "one\ntwo");
    assert_eq!(join_lines(&vec!["".to_string(), "".to_string(), "x".to_string()]), "\n\nx");
}
