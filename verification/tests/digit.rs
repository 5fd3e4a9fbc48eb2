use lexical::digit::{char_is_digit, char_to_digit, digit_to_char, to_ascii_lowercase};

#[test]
fn digits_are_written_in_upper_case() {
    assert_eq!(digit_to_char(0), b'0');
    assert_eq!(digit_to_char(9), b'9');
    assert_eq!(digit_to_char(10), b'A');
    assert_eq!(digit_to_char(35), b'Z');
}

#[test]
fn digits_are_read_in_either_case() {
    assert_eq!(char_to_digit(b'7', 10), Some(7));
    assert_eq!(char_to_digit(b'a', 16), Some(10));
    assert_eq!(char_to_digit(b'F', 16), Some(15));
    assert_eq!(char_to_digit(b'g', 16), None);
    assert_eq!(char_to_digit(b'z', 36), Some(35));
    assert_eq!(char_to_digit(b'2', 2), None);
    assert_eq!(char_to_digit(b'_', 36), None);
    assert_eq!(char_to_digit(b'/', 36), None);
    assert_eq!(char_to_digit(b':', 36), None);
    assert_eq!(char_to_digit(b'@', 36), None);
    assert_eq!(char_to_digit(b'[', 36), None);
    assert_eq!(char_to_digit(b'`', 36), None);
    assert_eq!(char_to_digit(b'{', 36), None);
    assert!(char_is_digit(b'9', 10));
    assert!(!char_is_digit(b'9', 8));
}

#[test]
fn written_digits_read_back() {
    for radix in 2..=36u32 {
        for digit in 0..radix {
            assert_eq!(char_to_digit(digit_to_char(digit), radix), Some(digit));
        }
    }
}

#[test]
fn lower_case_folds_letters_only() {
    for c in 0..=255u8 {
        assert_eq!(to_ascii_lowercase(c), c.to_ascii_lowercase());
    }
}
