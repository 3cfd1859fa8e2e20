use cynic_querygen::text::{char_is_ascii_control, i64_to_decimal};

#[test]
fn integers_are_written_in_decimal() {
    for n in [0i64, 7, 10, 42, -5, -10, 1234567890, i64::MAX, i64::MIN] {
        assert_eq!(i64_to_decimal(n), n.to_string());
    }
}

#[test]
fn ascii_control_characters_are_recognised() {
    for c in ['\0', '\n', '\t', '\u{1f}', '\u{7f}'] {
        assert!(char_is_ascii_control(c));
    }
    for c in [' ', 'a', '~', '\u{80}', 'é'] {
        assert!(!char_is_ascii_control(c));
    }
}
