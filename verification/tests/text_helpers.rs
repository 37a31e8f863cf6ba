use proc_receive::digits::{lower_hex_value, push_decimal, to_lower_hex};
use proc_receive::text::{bytes_eq, has_token, is_ascii_whitespace, next_token};

#[test]
fn ascii_whitespace_is_what_std_calls_so() {
    for b in 0..=255u8 {
        assert_eq!(is_ascii_whitespace(b), b.is_ascii_whitespace());
    }
    assert!(!is_ascii_whitespace(0x0b));
    assert!(is_ascii_whitespace(0x0c));
}

#[test]
fn tokens_are_runs_without_whitespace() {
    let text = b"  one\ttwo \r\n three";
    assert_eq!(next_token(text, 0), Some((2, 5)));
    assert_eq!(next_token(text, 2), Some((2, 5)));
    assert_eq!(next_token(text, 3), Some((3, 5)));
    assert_eq!(next_token(text, 5), Some((6, 9)));
    assert_eq!(next_token(text, 9), Some((13, 18)));
    assert_eq!(next_token(text, 18), None);
    assert_eq!(next_token(text, 100), None);
    assert_eq!(next_token(b"", 0), None);
    assert_eq!(next_token(b" \n\t", 0), None);
    assert_eq!(next_token(b"x", 0), Some((0, 1)));
}

#[test]
fn tokens_agree_with_split_ascii_whitespace() {
    for text in ["", " ", "a", " a", "a ", "a b", "ab  cd\tef\n", "\x0ca\x0bb\rc", "push-options"] {
        let mut found: Vec<&[u8]> = Vec::new();
        let mut from = 0;
        while let Some((start, end)) = next_token(text.as_bytes(), from) {
            found.push(&text.as_bytes()[start..end]);
            from = end;
        }
        let expected: Vec<&[u8]> = text.split_ascii_whitespace().map(|t| t.as_bytes()).collect();
        assert_eq!(found, expected);
        for token in expected {
            assert!(has_token(text.as_bytes(), token));
        }
    }
}

#[test]
fn has_token_wants_a_whole_token() {
    assert!(has_token(b"atomic push-options", b"push-options"));
    assert!(has_token(b"push-options", b"push-options"));
    assert!(has_token(b"\tpush-options\n", b"push-options"));
    assert!(!has_token(b"atomic push-options", b"push"));
    assert!(!has_token(b"atomic push-options", b"atomic push-options"));
    assert!(!has_token(b"atomic push-options", b""));
    assert!(!has_token(b"", b"push-options"));
    assert!(!has_token(b"", b""));
}

#[test]
fn bytes_eq_compares_all_bytes() {
    assert!(bytes_eq(b"", b""));
    assert!(bytes_eq(b"version", b"version"));
    assert!(!bytes_eq(b"version", b"versiom"));
    assert!(!bytes_eq(b"version", b"versio"));
    assert!(!bytes_eq(b"", b"\0"));
}

#[test]
fn lowercase_hex_digits() {
    let digits = b"0123456789abcdef";
    for value in 0..16u8 {
        assert_eq!(to_lower_hex(value), digits[value as usize]);
        assert_eq!(lower_hex_value(digits[value as usize]), Some(value));
    }
    for b in 0..=255u8 {
        if !digits.contains(&b) {
            assert_eq!(lower_hex_value(b), None);
        }
    }
}

#[test]
fn decimal_digits() {
    for n in [0u64, 1, 9, 10, 11, 99, 100, 909, 1000, 18446744073709551615] {
        let mut out = b"n=".to_vec();
        push_decimal(&mut out, n);
        assert_eq!(out, format!("n={}", n).into_bytes());
    }
}
