use tsptools::text::{
    blank, is_word, parse_i32, parse_number, parse_u32, parse_usize, split_lines, split_words,
    trim,
};

fn bytes(words: &[&str]) -> Vec<Vec<u8>> {
    words.iter().map(|w| w.as_bytes().to_vec()).collect()
}

#[test]
fn blanks_are_spaces_and_control_bytes() {
    for b in [b' ', b'\t', b'\n', b'\r', 11, 12] {
        assert!(blank(b));
    }
    for b in [b'a', b'0', b'-', 0, 8, 14, 31, 33, 160, 255] {
        assert!(!blank(b));
    }
}

#[test]
fn words_are_the_stretches_without_blanks() {
    assert_eq!(split_words(b"  12 7\t-3  "), bytes(&["12", "7", "-3"]));
    assert_eq!(split_words(b"one"), bytes(&["one"]));
    assert_eq!(split_words(b"a b"), bytes(&["a", "b"]));
    assert_eq!(split_words(b""), bytes(&[]));
    assert_eq!(split_words(b" \t\r\n"), bytes(&[]));
}

#[test]
fn lines_end_at_line_feeds() {
    assert_eq!(split_lines(b"a\nb\n"), bytes(&["a", "b"]));
    assert_eq!(split_lines(b"a\nb"), bytes(&["a", "b"]));
    assert_eq!(split_lines(b"a\n\nb"), bytes(&["a", "", "b"]));
    assert_eq!(split_lines(b"\n"), bytes(&[""]));
    assert_eq!(split_lines(b""), bytes(&[]));
    assert_eq!(split_lines(b"a\r\nb"), bytes(&["a\r", "b"]));
}

#[test]
fn trim_takes_the_blanks_off_both_ends() {
    assert_eq!(trim(b"  a b \r"), b"a b".to_vec());
    assert_eq!(trim(b"a"), b"a".to_vec());
    assert_eq!(trim(b"   "), b"".to_vec());
    assert_eq!(trim(b""), b"".to_vec());
    assert_eq!(trim(b"\tx"), b"x".to_vec());
    assert_eq!(trim(b"x\n"), b"x".to_vec());
}

#[test]
fn words_are_compared_byte_by_byte() {
    assert!(is_word(b"DIMENSION", "DIMENSION"));
    assert!(!is_word(b"DIMENSION ", "DIMENSION"));
    assert!(!is_word(b"DIMENSIOM", "DIMENSION"));
    assert!(!is_word(b"", "DIMENSION"));
    assert!(is_word(b"", ""));
}

#[test]
fn numbers_are_digits_with_a_sign() {
    assert_eq!(parse_i32(b"0"), Some(0));
    assert_eq!(parse_i32(b"42"), Some(42));
    assert_eq!(parse_i32(b"-42"), Some(-42));
    assert_eq!(parse_i32(b"+42"), Some(42));
    assert_eq!(parse_i32(b"007"), Some(7));
    assert_eq!(parse_i32(b""), None);
    assert_eq!(parse_i32(b"-"), None);
    assert_eq!(parse_i32(b"+"), None);
    assert_eq!(parse_i32(b"4 2"), None);
    assert_eq!(parse_i32(b"4a"), None);
    assert_eq!(parse_i32(b"a4"), None);
    assert_eq!(parse_i32(b"--4"), None);
    assert_eq!(parse_i32(b"4.5"), None);
}

#[test]
fn numbers_out_of_range_are_none() {
    assert_eq!(parse_i32(b"2147483647"), Some(i32::MAX));
    assert_eq!(parse_i32(b"2147483648"), None);
    assert_eq!(parse_i32(b"-2147483648"), Some(i32::MIN));
    assert_eq!(parse_i32(b"-2147483649"), None);
    assert_eq!(parse_u32(b"4294967295"), Some(u32::MAX));
    assert_eq!(parse_u32(b"4294967296"), None);
    assert_eq!(parse_u32(b"-1"), None);
    assert_eq!(parse_u32(b"0"), Some(0));
    assert_eq!(parse_usize(b"18446744073709551615"), Some(u64::MAX as usize));
    assert_eq!(parse_usize(b"18446744073709551616"), None);
    assert_eq!(parse_usize(b"99999999999999999999999999999999999999999999"), None);
    assert_eq!(parse_number(b"18446744073709551615"), Some(u64::MAX as i128));
    assert_eq!(parse_number(b"-18446744073709551615"), Some(-(u64::MAX as i128)));
    assert_eq!(parse_number(b"18446744073709551616"), None);
    assert_eq!(parse_number(b"123456789"), Some(123456789));
}
